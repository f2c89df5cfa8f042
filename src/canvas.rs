//! The editable layout: one rectangle per display on a bounded canvas.
//!
//! Positions are kept in real (compositor) pixels. The canvas shows them at
//! one tenth, so a canvas unit is `REAL_PER_UNIT` real pixels. A display that
//! has only been loaded keeps the position the compositor reported. Each
//! committed interaction (a place, a key move, a drag update or a drag end)
//! brings the display inside the canvas.
use vstd::prelude::*;

use crate::registry::{DisplayRecord, RecordView};

verus! {

/// Real pixels per canvas unit: the canvas shows the layout at one tenth.
pub const REAL_PER_UNIT: i64 = 10;

/// Grid step, in canvas units, that a released drag snaps to (50 real pixels).
pub const SNAP_UNITS: i64 = 5;

/// Width of the canvas, in canvas units.
pub const CANVAS_WIDTH: i64 = 4000;

/// Height of the canvas, in canvas units.
pub const CANVAS_HEIGHT: i64 = 3000;

/// Canvas step of one arrow-key press.
pub const KEY_STEP: i64 = 1;

/// Canvas step of one arrow-key press with the modifier held.
pub const KEY_STEP_FAST: i64 = 20;

/// Size, in real pixels, of a side that is `native` pixels long (nothing for a
/// side that does not read as a positive length).
pub open spec fn span(native: int) -> int {
    if native > 0 {
        native
    } else {
        0
    }
}

/// The largest offset at which a side of size `ext` still fits in `bound`.
pub open spec fn max_offset(bound: int, ext: int) -> int {
    if ext >= bound {
        0
    } else {
        bound - ext
    }
}

/// `v` brought into `[0, hi]`.
pub open spec fn clamp(v: int, hi: int) -> int {
    if v < 0 {
        0
    } else if v > hi {
        hi
    } else {
        v
    }
}

/// The multiple of the snap grid (`SNAP_UNITS` canvas units, 50 real pixels)
/// nearest to the real coordinate `v`, halves upward.
pub open spec fn snap(v: int) -> int {
    ((v + 25) / 50) * 50
}

/// The rotation index after one step forward.
pub open spec fn next_rotation(r: int) -> int {
    (r + 1) % 4
}

/// The largest real `x` at which `d` lies inside the canvas.
pub open spec fn max_x(d: RecordView) -> int {
    max_offset(CANVAS_WIDTH * 10, span(d.width))
}

/// The largest real `y` at which `d` lies inside the canvas.
pub open spec fn max_y(d: RecordView) -> int {
    max_offset(CANVAS_HEIGHT * 10, span(d.height))
}

/// `d` committed at the point nearest to the real point `(x, y)` at which it
/// lies inside the canvas.
pub open spec fn placed(d: RecordView, x: int, y: int) -> RecordView {
    RecordView { x: clamp(x, max_x(d)), y: clamp(y, max_y(d)), ..d }
}

/// `d` lies inside the canvas.
pub open spec fn fits(d: RecordView) -> bool {
    0 <= d.x <= max_x(d) && 0 <= d.y <= max_y(d)
}

/// The display named `n`, where there is one.
pub open spec fn named(v: Seq<RecordView>, n: Seq<char>) -> bool {
    exists|i: int| 0 <= i < v.len() && (#[trigger] v[i]).name == n
}

/// How a record from the compositor is loaded: as it is, with a rotation index
/// outside 0 to 3 read as 0.
pub open spec fn initial(r: RecordView) -> RecordView {
    RecordView {
        rotation: if 0 <= r.rotation < 4 {
            r.rotation
        } else {
            0
        },
        ..r
    }
}

/// The displays after adding `r`: it replaces the display of the same name, or
/// comes last.
pub open spec fn with_record(v: Seq<RecordView>, r: RecordView) -> Seq<RecordView> {
    if named(v, r.name) {
        v.map_values(|d: RecordView| if d.name == r.name { initial(r) } else { d })
    } else {
        v.push(initial(r))
    }
}

/// The displays after adding each of `rs` in turn to an empty canvas.
pub open spec fn loaded(rs: Seq<RecordView>) -> Seq<RecordView>
    decreases rs.len(),
{
    if rs.len() == 0 {
        Seq::empty()
    } else {
        with_record(loaded(rs.drop_last()), rs.last())
    }
}

/// The displays after `f` is applied to the one named `n`.
pub open spec fn update_named(
    v: Seq<RecordView>,
    n: Seq<char>,
    f: spec_fn(RecordView) -> RecordView,
) -> Seq<RecordView> {
    v.map_values(|d: RecordView| if d.name == n { f(d) } else { d })
}

/// One display on the canvas, at its real position.
pub struct PlacedDisplay {
    name: String,
    native_width: i32,
    native_height: i32,
    x: i32,
    y: i32,
    rotation: u32,
}

impl View for PlacedDisplay {
    type V = RecordView;

    closed spec fn view(&self) -> RecordView {
        RecordView {
            name: self.name@,
            width: self.native_width as int,
            height: self.native_height as int,
            x: self.x as int,
            y: self.y as int,
            rotation: self.rotation as int,
        }
    }
}

/// The displays being arranged, in the order in which they were added.
pub struct CanvasModel {
    displays: Vec<PlacedDisplay>,
}

impl View for CanvasModel {
    type V = Seq<RecordView>;

    closed spec fn view(&self) -> Seq<RecordView> {
        self.displays@.map_values(|d: PlacedDisplay| d@)
    }
}

impl CanvasModel {
    /// Every display has a rotation index, and no two share a name.
    pub open spec fn wf(&self) -> bool {
        &&& forall|i: int| 0 <= i < self@.len() ==> 0 <= (#[trigger] self@[i]).rotation < 4
        &&& forall|i: int, j: int|
            0 <= i < j < self@.len() ==> (#[trigger] self@[i]).name != (#[trigger] self@[j]).name
    }

    /// An empty canvas.
    pub fn new() -> (r: CanvasModel)
        ensures
            r.wf(),
            r@ == Seq::<RecordView>::empty(),
    {
        let r = CanvasModel { displays: Vec::new() };
        assert(r@ =~= Seq::<RecordView>::empty());
        r
    }

    /// The number of displays.
    pub fn len(&self) -> (r: usize)
        ensures
            r == self@.len(),
    {
        self.displays.len()
    }

    /// Where the display called `name` is.
    fn index_of(&self, name: &String) -> (r: Option<usize>)
        ensures
            match r {
                Some(i) => i < self@.len() && self@[i as int].name == name@,
                None => !named(self@, name@),
            },
    {
        let mut i: usize = 0;
        while i < self.displays.len()
            invariant
                i <= self.displays.len(),
                forall|k: int| 0 <= k < i ==> (#[trigger] self@[k]).name != name@,
            decreases self.displays.len() - i,
        {
            if self.displays[i].name == *name {
                return Some(i);
            }
            i += 1;
        }
        None
    }

    /// Replaces the display at `i` with `d`.
    fn replace(&mut self, i: usize, d: PlacedDisplay)
        requires
            i < old(self)@.len(),
        ensures
            final(self)@ == old(self)@.update(i as int, d@),
    {
        self.displays.set(i, d);
        assert(final(self)@ =~= old(self)@.update(i as int, d@));
    }
}

/// A copy of `d` at `(x, y)` with rotation `rotation`.
fn moved(d: &PlacedDisplay, x: i32, y: i32, rotation: u32) -> (r: PlacedDisplay)
    ensures
        r@ == (RecordView { x: x as int, y: y as int, rotation: rotation as int, ..d@ }),
{
    PlacedDisplay {
        name: d.name.clone(),
        native_width: d.native_width,
        native_height: d.native_height,
        x,
        y,
        rotation,
    }
}

/// Size, in whole canvas units, of the rectangle drawn for a side `native` real
/// pixels long.
pub fn canvas_extent(native: i32) -> (r: i32)
    ensures
        r == (if native > 0 {
            native / 10
        } else {
            0
        }),
{
    if native > 0 {
        native / 10
    } else {
        0
    }
}

/// The largest offset at which a side of the display fits in `bound`.
fn max_offset_exec(bound: i64, native: i32) -> (r: i64)
    requires
        0 <= bound <= CANVAS_WIDTH * 10,
    ensures
        r == max_offset(bound as int, span(native as int)),
        0 <= r <= bound,
{
    let ext: i64 = if native > 0 {
        native as i64
    } else {
        0
    };
    if ext >= bound {
        0
    } else {
        bound - ext
    }
}

/// `v` brought into `[0, hi]`.
fn clamp_exec(v: i64, hi: i64) -> (r: i32)
    requires
        0 <= hi <= CANVAS_WIDTH * 10,
    ensures
        r == clamp(v as int, hi as int),
{
    if v < 0 {
        0
    } else if v > hi {
        hi as i32
    } else {
        v as i32
    }
}

/// How `rec` is loaded onto the canvas.
fn initial_exec(rec: &DisplayRecord) -> (r: PlacedDisplay)
    ensures
        r@ == initial(rec@),
        0 <= r@.rotation < 4,
{
    let rotation: u32 = if rec.rotation < 4 {
        rec.rotation
    } else {
        0
    };
    PlacedDisplay {
        name: rec.name.clone(),
        native_width: rec.native_width,
        native_height: rec.native_height,
        x: rec.pos_x,
        y: rec.pos_y,
        rotation,
    }
}

impl CanvasModel {
    /// Adds the display that `rec` describes, at the real position it gives. A
    /// display of the same name is replaced.
    pub fn insert(&mut self, rec: &DisplayRecord)
        requires
            old(self).wf(),
        ensures
            final(self).wf(),
            final(self)@ == with_record(old(self)@, rec@),
    {
        let d = initial_exec(rec);
        match self.index_of(&rec.name) {
            Some(i) => {
                let ghost v = old(self)@;
                self.replace(i, d);
                assert(named(v, rec@.name));
                assert(final(self)@ =~= with_record(v, rec@)) by {
                    assert forall|k: int| 0 <= k < v.len() implies final(self)@[k] == with_record(
                        v,
                        rec@,
                    )[k] by {
                        if k != i {
                            if k < i {
                                assert(v[k].name != v[i as int].name);
                            } else {
                                assert(v[i as int].name != v[k].name);
                            }
                        }
                    }
                }
            },
            None => {
                let ghost v = old(self)@;
                self.displays.push(d);
                assert(final(self)@ =~= v.push(d@));
            },
        }
    }

    /// A canvas holding the displays of `recs`, added in order, each at the real
    /// position its record gives.
    pub fn from_records(recs: &Vec<DisplayRecord>) -> (r: CanvasModel)
        ensures
            r.wf(),
            r@ == loaded(recs@.map_values(|d: DisplayRecord| d@)),
    {
        let mut m = CanvasModel::new();
        let ghost views = recs@.map_values(|d: DisplayRecord| d@);
        let mut i: usize = 0;
        while i < recs.len()
            invariant
                i <= recs.len(),
                views == recs@.map_values(|d: DisplayRecord| d@),
                m.wf(),
                m@ == loaded(views.subrange(0, i as int)),
            decreases recs.len() - i,
        {
            m.insert(&recs[i]);
            assert(views.subrange(0, i + 1).drop_last() =~= views.subrange(0, i as int));
            i += 1;
        }
        assert(views.subrange(0, i as int) =~= views);
        m
    }
}

} // verus!

verus! {

/// A key that the layout editor acts on.
#[derive(Clone, Copy, PartialEq, Eq, Structural, Debug)]
pub enum Key {
    Up,
    Down,
    Left,
    Right,
    /// Advances the focused display's rotation.
    Rotate,
    /// Any other key, which the editor leaves alone.
    Other,
}

/// How far one press of `key` moves a display, in canvas units.
pub open spec fn key_delta(key: Key, fast: bool) -> (int, int) {
    let step = if fast {
        KEY_STEP_FAST as int
    } else {
        KEY_STEP as int
    };
    match key {
        Key::Up => (0, -step),
        Key::Down => (0, step),
        Key::Left => (-step, 0),
        Key::Right => (step, 0),
        _ => (0, 0),
    }
}

/// What one press of `key` does to a display: an arrow commits it one step
/// further, inside the canvas.
pub open spec fn after_key(d: RecordView, key: Key, fast: bool) -> RecordView {
    match key {
        Key::Rotate => RecordView { rotation: next_rotation(d.rotation), ..d },
        Key::Other => d,
        _ => placed(d, d.x + 10 * key_delta(key, fast).0, d.y + 10 * key_delta(key, fast).1),
    }
}

/// The displays after the display called `n` is rotated a quarter turn.
pub open spec fn turned(v: Seq<RecordView>, n: Seq<char>) -> Seq<RecordView> {
    update_named(v, n, |d: RecordView| RecordView { rotation: next_rotation(d.rotation), ..d })
}

impl CanvasModel {
    /// Applies a change to the display at `i`: a quarter turn, or a commit at
    /// the real point `(x, y)` brought inside the canvas.
    fn change_at(&mut self, i: usize, x: i64, y: i64, rotate: bool)
        requires
            old(self).wf(),
            i < old(self)@.len(),
        ensures
            final(self).wf(),
            final(self)@ == old(self)@.update(
                i as int,
                if rotate {
                    RecordView {
                        rotation: next_rotation(old(self)@[i as int].rotation),
                        ..old(self)@[i as int]
                    }
                } else {
                    placed(old(self)@[i as int], x as int, y as int)
                },
            ),
    {
        let ghost v = self@;
        let d = &self.displays[i];
        assert(d@ == v[i as int]);
        let nd = if rotate {
            moved(d, d.x, d.y, (d.rotation + 1) % 4)
        } else {
            let mx = max_offset_exec(CANVAS_WIDTH * REAL_PER_UNIT, d.native_width);
            let my = max_offset_exec(CANVAS_HEIGHT * REAL_PER_UNIT, d.native_height);
            moved(d, clamp_exec(x, mx), clamp_exec(y, my), d.rotation)
        };
        self.replace(i, nd);
        assert forall|a: int, b: int| 0 <= a < b < self@.len() implies (#[trigger] self@[a]).name
            != (#[trigger] self@[b]).name by {
            assert(v[a].name != v[b].name);
        }
    }

    /// The displays after a change at `i`, stated for the display of that name.
    proof fn lemma_update_at(
        v: Seq<RecordView>,
        i: int,
        n: Seq<char>,
        e: RecordView,
        f: spec_fn(RecordView) -> RecordView,
    )
        requires
            0 <= i < v.len(),
            v[i].name == n,
            e == f(v[i]),
            forall|a: int, b: int|
                0 <= a < b < v.len() ==> (#[trigger] v[a]).name != (#[trigger] v[b]).name,
        ensures
            v.update(i, e) == update_named(v, n, f),
    {
        assert forall|k: int| 0 <= k < v.len() implies v.update(i, e)[k] == update_named(
            v,
            n,
            f,
        )[k] by {
            if k < i {
                assert(v[k].name != v[i].name);
            } else if k > i {
                assert(v[i].name != v[k].name);
            }
        }
        assert(v.update(i, e) =~= update_named(v, n, f));
    }

    /// Commits the display called `name` at the canvas point nearest to `(x, y)`
    /// (in canvas units) at which it lies inside the canvas. Returns whether there
    /// is such a display.
    pub fn place(&mut self, name: &str, x: i32, y: i32) -> (found: bool)
        requires
            old(self).wf(),
        ensures
            final(self).wf(),
            found == named(old(self)@, name@),
            final(self)@ == update_named(
                old(self)@,
                name@,
                |d: RecordView| placed(d, 10 * x, 10 * y),
            ),
    {
        let key = String::from_str(name);
        match self.index_of(&key) {
            Some(i) => {
                let ghost v = self@;
                self.change_at(i, x as i64 * REAL_PER_UNIT, y as i64 * REAL_PER_UNIT, false);
                proof {
                    Self::lemma_update_at(
                        v,
                        i as int,
                        name@,
                        placed(v[i as int], 10 * x, 10 * y),
                        |d: RecordView| placed(d, 10 * x, 10 * y),
                    );
                }
                true
            },
            None => {
                assert(self@ =~= update_named(
                    self@,
                    name@,
                    |d: RecordView| placed(d, 10 * x, 10 * y),
                ));
                false
            },
        }
    }

    /// Moves the display called `name` by `(dx, dy)` canvas units from where it
    /// is and commits it inside the canvas. Returns whether there is such a
    /// display.
    pub fn move_by(&mut self, name: &str, dx: i32, dy: i32) -> (found: bool)
        requires
            old(self).wf(),
        ensures
            final(self).wf(),
            found == named(old(self)@, name@),
            final(self)@ == update_named(
                old(self)@,
                name@,
                |d: RecordView| placed(d, d.x + 10 * dx, d.y + 10 * dy),
            ),
    {
        let key = String::from_str(name);
        match self.index_of(&key) {
            Some(i) => {
                let ghost v = self@;
                let d = &self.displays[i];
                assert(d@ == v[i as int]);
                let x = d.x as i64 + dx as i64 * REAL_PER_UNIT;
                let y = d.y as i64 + dy as i64 * REAL_PER_UNIT;
                self.change_at(i, x, y, false);
                proof {
                    Self::lemma_update_at(
                        v,
                        i as int,
                        name@,
                        placed(v[i as int], x as int, y as int),
                        |d: RecordView| placed(d, d.x + 10 * dx, d.y + 10 * dy),
                    );
                }
                true
            },
            None => {
                assert(self@ =~= update_named(
                    self@,
                    name@,
                    |d: RecordView| placed(d, d.x + 10 * dx, d.y + 10 * dy),
                ));
                false
            },
        }
    }

    /// Advances the rotation of the display called `name` by a quarter turn.
    /// Returns whether there is such a display.
    pub fn rotate_next(&mut self, name: &str) -> (found: bool)
        requires
            old(self).wf(),
        ensures
            final(self).wf(),
            found == named(old(self)@, name@),
            final(self)@ == turned(old(self)@, name@),
    {
        let key = String::from_str(name);
        match self.index_of(&key) {
            Some(i) => {
                let ghost v = self@;
                self.change_at(i, 0, 0, true);
                proof {
                    Self::lemma_update_at(
                        v,
                        i as int,
                        name@,
                        RecordView { rotation: next_rotation(v[i as int].rotation), ..v[i as int] },
                        |d: RecordView| RecordView { rotation: next_rotation(d.rotation), ..d },
                    );
                }
                true
            },
            None => {
                assert(self@ =~= turned(self@, name@));
                false
            },
        }
    }

    /// Handles a key press on the display called `name`: the arrow keys move it
    /// by `KEY_STEP` canvas units (by `KEY_STEP_FAST` with the modifier held)
    /// and commit it inside the canvas, and `Key::Rotate` advances its
    /// rotation. Returns whether the editor acts on the key.
    pub fn key_press(&mut self, name: &str, key: Key, fast: bool) -> (handled: bool)
        requires
            old(self).wf(),
        ensures
            final(self).wf(),
            handled == (key != Key::Other),
            final(self)@ == update_named(old(self)@, name@, |d: RecordView| after_key(d, key, fast)),
    {
        let step: i32 = if fast {
            KEY_STEP_FAST as i32
        } else {
            KEY_STEP as i32
        };
        let ghost v = self@;
        match key {
            Key::Up => {
                self.move_by(name, 0, -step);
            },
            Key::Down => {
                self.move_by(name, 0, step);
            },
            Key::Left => {
                self.move_by(name, -step, 0);
            },
            Key::Right => {
                self.move_by(name, step, 0);
            },
            Key::Rotate => {
                self.rotate_next(name);
            },
            Key::Other => {},
        }
        assert(self@ =~= update_named(v, name@, |d: RecordView| after_key(d, key, fast)));
        key != Key::Other
    }

    /// Where the display called `name` is, in real pixels.
    pub fn position(&self, name: &str) -> (r: Option<(i32, i32)>)
        ensures
            match r {
                Some(p) => exists|i: int|
                    0 <= i < self@.len() && (#[trigger] self@[i]).name == name@ && self@[i].x == p.0
                        && self@[i].y == p.1,
                None => !named(self@, name@),
            },
    {
        let key = String::from_str(name);
        match self.index_of(&key) {
            Some(i) => {
                let d = &self.displays[i];
                assert(d@ == self@[i as int]);
                Some((d.x, d.y))
            },
            None => None,
        }
    }

    /// The rotation index of the display called `name`.
    pub fn rotation(&self, name: &str) -> (r: Option<u32>)
        ensures
            match r {
                Some(q) => exists|i: int|
                    0 <= i < self@.len() && (#[trigger] self@[i]).name == name@
                        && self@[i].rotation == q,
                None => !named(self@, name@),
            },
    {
        let key = String::from_str(name);
        match self.index_of(&key) {
            Some(i) => {
                let d = &self.displays[i];
                assert(d@ == self@[i as int]);
                Some(d.rotation)
            },
            None => None,
        }
    }

    /// Every display with its real position, in canvas order.
    pub fn snapshot(&self) -> (r: Vec<DisplayRecord>)
        ensures
            r.len() == self@.len(),
            forall|i: int| 0 <= i < r.len() ==> (#[trigger] r[i])@ == self@[i],
    {
        let mut out: Vec<DisplayRecord> = Vec::new();
        let mut i: usize = 0;
        while i < self.displays.len()
            invariant
                i <= self.displays.len(),
                self@.len() == self.displays.len(),
                out.len() == i,
                forall|k: int| 0 <= k < i ==> (#[trigger] out[k])@ == self@[k],
            decreases self.displays.len() - i,
        {
            let d = &self.displays[i];
            assert(d@ == self@[i as int]);
            out.push(
                DisplayRecord {
                    name: d.name.clone(),
                    native_width: d.native_width,
                    native_height: d.native_height,
                    pos_x: d.x,
                    pos_y: d.y,
                    rotation: d.rotation,
                },
            );
            i += 1;
        }
        out
    }
}

} // verus!

verus! {

/// A display at the end of a drag: the pointer's real candidate point
/// `(cx, cy)` is brought inside the canvas, rounded to the snap grid, and
/// committed inside the canvas.
pub open spec fn released(d: RecordView, cx: int, cy: int) -> RecordView {
    placed(d, snap(clamp(cx, max_x(d))), snap(clamp(cy, max_y(d))))
}

/// What a drag gesture keeps between its events.
pub struct DragView {
    pub name: Seq<char>,
    pub offset_x: int,
    pub offset_y: int,
}

/// One drag gesture on one display: the offset, in real pixels, from the
/// pointer to the rectangle's corner, taken when the gesture begins.
pub struct DragSession {
    name: String,
    offset_x: i64,
    offset_y: i64,
}

impl View for DragSession {
    type V = DragView;

    closed spec fn view(&self) -> DragView {
        DragView { name: self.name@, offset_x: self.offset_x as int, offset_y: self.offset_y as int }
    }
}

impl DragSession {
    /// The offsets come from an `i32` position and an `i32` pointer position.
    #[verifier::type_invariant]
    spec fn offsets_in_range(&self) -> bool {
        &&& -0x8_0000_0000 <= self.offset_x <= 0x8_0000_0000
        &&& -0x8_0000_0000 <= self.offset_y <= 0x8_0000_0000
    }

    /// The display being dragged.
    pub fn name(&self) -> (r: &str)
        ensures
            r@ == self@.name,
    {
        self.name.as_str()
    }
}

/// The nearest point of the snap grid to `v`.
fn snap_exec(v: i32) -> (r: i64)
    requires
        0 <= v <= CANVAS_WIDTH * 10,
    ensures
        r == snap(v as int),
{
    ((((v as u64) + 25) / 50) * 50) as i64
}

impl CanvasModel {
    /// Starts dragging the display called `name` with the pointer at `(px, py)`
    /// (canvas units). `None` where there is no such display.
    pub fn begin_drag(&self, name: &str, px: i32, py: i32) -> (r: Option<DragSession>)
        ensures
            r is Some <==> named(self@, name@),
            r matches Some(s) ==> s@.name == name@ && exists|i: int|
                0 <= i < self@.len() && (#[trigger] self@[i]).name == name@ && s@.offset_x
                    == self@[i].x - 10 * px && s@.offset_y == self@[i].y - 10 * py,
    {
        match self.position(name) {
            Some((x, y)) => Some(
                DragSession {
                    name: String::from_str(name),
                    offset_x: x as i64 - px as i64 * REAL_PER_UNIT,
                    offset_y: y as i64 - py as i64 * REAL_PER_UNIT,
                },
            ),
            None => None,
        }
    }

    /// Follows the pointer, now at `(px, py)`: the display is committed at the
    /// pointer plus the offset, brought inside the canvas but not snapped.
    pub fn drag_update(&mut self, s: &DragSession, px: i32, py: i32)
        requires
            old(self).wf(),
        ensures
            final(self).wf(),
            final(self)@ == update_named(
                old(self)@,
                s@.name,
                |d: RecordView| placed(d, 10 * px + s@.offset_x, 10 * py + s@.offset_y),
            ),
    {
        proof {
            use_type_invariant(s);
        }
        let cx = px as i64 * REAL_PER_UNIT + s.offset_x;
        let cy = py as i64 * REAL_PER_UNIT + s.offset_y;
        match self.index_of(&s.name) {
            Some(i) => {
                let ghost v = self@;
                self.change_at(i, cx, cy, false);
                proof {
                    Self::lemma_update_at(
                        v,
                        i as int,
                        s@.name,
                        placed(v[i as int], cx as int, cy as int),
                        |d: RecordView| placed(d, 10 * px + s@.offset_x, 10 * py + s@.offset_y),
                    );
                }
            },
            None => {
                assert(self@ =~= update_named(
                    self@,
                    s@.name,
                    |d: RecordView| placed(d, 10 * px + s@.offset_x, 10 * py + s@.offset_y),
                ));
            },
        }
    }

    /// Ends the drag with the pointer at `(px, py)`: the display is committed at
    /// the pointer plus the offset, brought inside the canvas and snapped to the
    /// grid.
    pub fn end_drag(&mut self, s: DragSession, px: i32, py: i32)
        requires
            old(self).wf(),
        ensures
            final(self).wf(),
            final(self)@ == update_named(
                old(self)@,
                s@.name,
                |d: RecordView| released(d, 10 * px + s@.offset_x, 10 * py + s@.offset_y),
            ),
    {
        proof {
            use_type_invariant(&s);
        }
        let cx = px as i64 * REAL_PER_UNIT + s.offset_x;
        let cy = py as i64 * REAL_PER_UNIT + s.offset_y;
        match self.index_of(&s.name) {
            Some(i) => {
                let ghost v = self@;
                let d = &self.displays[i];
                assert(d@ == v[i as int]);
                let mx = max_offset_exec(CANVAS_WIDTH * REAL_PER_UNIT, d.native_width);
                let my = max_offset_exec(CANVAS_HEIGHT * REAL_PER_UNIT, d.native_height);
                let x = snap_exec(clamp_exec(cx, mx));
                let y = snap_exec(clamp_exec(cy, my));
                self.change_at(i, x, y, false);
                proof {
                    Self::lemma_update_at(
                        v,
                        i as int,
                        s@.name,
                        released(v[i as int], cx as int, cy as int),
                        |d: RecordView| released(d, 10 * px + s@.offset_x, 10 * py + s@.offset_y),
                    );
                }
            },
            None => {
                assert(self@ =~= update_named(
                    self@,
                    s@.name,
                    |d: RecordView| released(d, 10 * px + s@.offset_x, 10 * py + s@.offset_y),
                ));
            },
        }
    }
}

/// The grid guides shown during a drag across a side of `bound` canvas units:
/// one every `SNAP_UNITS`, from 0 to `bound` (none where `bound` is negative).
pub fn guide_lines(bound: i32) -> (r: Vec<i32>)
    ensures
        r.len() == if bound < 0 {
            0
        } else {
            bound / 5 + 1
        },
        forall|i: int| 0 <= i < r.len() ==> #[trigger] r[i] == 5 * i,
{
    let mut r: Vec<i32> = Vec::new();
    let mut g: i64 = 0;
    while g <= bound as i64
        invariant
            g == 5 * r.len(),
            bound >= 0 ==> g <= bound + 5,
            bound < 0 ==> r.len() == 0,
            g <= bound ==> r.len() <= bound / 5,
            g > bound && bound >= 0 ==> r.len() == bound / 5 + 1,
            forall|i: int| 0 <= i < r.len() ==> #[trigger] r[i] == 5 * i,
        decreases bound + 5 - g,
    {
        r.push(g as i32);
        g += 5;
    }
    r
}

/// A released drag leaves each axis on the snap grid (a multiple of
/// `SNAP_UNITS` canvas units). The one exception is an axis whose nearest grid
/// point lies past the canvas edge while the edge itself is off the grid: that
/// axis stops at the edge.
pub proof fn lemma_release_on_grid(d: RecordView, cx: int, cy: int)
    requires
        snap(clamp(cx, max_x(d))) <= max_x(d) || max_x(d) % 50 == 0,
        snap(clamp(cy, max_y(d))) <= max_y(d) || max_y(d) % 50 == 0,
    ensures
        released(d, cx, cy).x % (SNAP_UNITS * REAL_PER_UNIT) == 0,
        released(d, cx, cy).y % (SNAP_UNITS * REAL_PER_UNIT) == 0,
{
    let a = clamp(cx, max_x(d));
    let b = clamp(cy, max_y(d));
    assert(snap(a) % 50 == 0 && snap(a) >= 0) by (nonlinear_arith)
        requires
            a >= 0,
            snap(a) == ((a + 25) / 50) * 50,
    ;
    assert(snap(b) % 50 == 0 && snap(b) >= 0) by (nonlinear_arith)
        requires
            b >= 0,
            snap(b) == ((b + 25) / 50) * 50,
    ;
}

/// Every committed position lies inside the canvas: a display committed at any
/// candidate point (by `place`, `move_by`, an arrow key, `drag_update`, or
/// `end_drag`, whose result `released` is such a commit) has `position >= 0`
/// and `position + extent <= canvas bound` on both axes, wherever its size fits
/// the canvas at all.
pub proof fn lemma_committed_inside(d: RecordView, x: int, y: int)
    ensures
        fits(placed(d, x, y)),
        0 <= placed(d, x, y).x,
        0 <= placed(d, x, y).y,
        span(d.width) <= CANVAS_WIDTH * 10 ==> placed(d, x, y).x + span(d.width) <= CANVAS_WIDTH
            * 10,
        span(d.height) <= CANVAS_HEIGHT * 10 ==> placed(d, x, y).y + span(d.height)
            <= CANVAS_HEIGHT * 10,
{
}

/// Four quarter turns bring a rotation index back to where it was.
pub proof fn lemma_four_turns(r: int)
    requires
        0 <= r < 4,
    ensures
        next_rotation(next_rotation(next_rotation(next_rotation(r)))) == r,
{
}

/// Rotating the display called `n` four times leaves the canvas as it was.
pub proof fn lemma_four_turns_on_canvas(m: CanvasModel, n: Seq<char>)
    requires
        m.wf(),
    ensures
        turned(turned(turned(turned(m@, n), n), n), n) == m@,
{
    let v = m@;
    let w = turned(turned(turned(turned(v, n), n), n), n);
    assert forall|i: int| 0 <= i < v.len() implies w[i] == v[i] by {
        lemma_four_turns(v[i].rotation);
    }
    assert(w =~= v);
}

/// The displays after `k` presses of `key` on the display called `n`, as
/// `key_press` states each one.
pub open spec fn presses(v: Seq<RecordView>, n: Seq<char>, key: Key, fast: bool, k: nat) -> Seq<
    RecordView,
>
    decreases k,
{
    if k == 0 {
        v
    } else {
        update_named(presses(v, n, key, fast, (k - 1) as nat), n, |d: RecordView| after_key(d, key, fast))
    }
}

/// A display after `k` presses of `key`.
pub open spec fn pressed(d: RecordView, key: Key, fast: bool, k: nat) -> RecordView
    decreases k,
{
    if k == 0 {
        d
    } else {
        after_key(pressed(d, key, fast, (k - 1) as nat), key, fast)
    }
}

/// Presses keep a display's name and size.
proof fn lemma_pressed_keeps(d: RecordView, key: Key, fast: bool, k: nat)
    ensures
        pressed(d, key, fast, k).name == d.name,
        pressed(d, key, fast, k).width == d.width,
        pressed(d, key, fast, k).height == d.height,
    decreases k,
{
    if k > 0 {
        lemma_pressed_keeps(d, key, fast, (k - 1) as nat);
    }
}

/// Presses change only the display they are aimed at, each as `pressed` says.
proof fn lemma_presses_each(v: Seq<RecordView>, n: Seq<char>, key: Key, fast: bool, k: nat)
    ensures
        presses(v, n, key, fast, k) == v.map_values(
            |d: RecordView| if d.name == n { pressed(d, key, fast, k) } else { d },
        ),
    decreases k,
{
    let f = |d: RecordView| if d.name == n { pressed(d, key, fast, k) } else { d };
    if k == 0 {
        assert(presses(v, n, key, fast, k) =~= v.map_values(f));
    } else {
        let k1 = (k - 1) as nat;
        lemma_presses_each(v, n, key, fast, k1);
        let before = presses(v, n, key, fast, k1);
        assert forall|i: int| 0 <= i < v.len() implies presses(v, n, key, fast, k)[i]
            == v.map_values(f)[i] by {
            lemma_pressed_keeps(v[i], key, fast, k1);
            if v[i].name == n {
                assert(before[i] == pressed(v[i], key, fast, k1));
                assert(pressed(v[i], key, fast, k) == after_key(pressed(v[i], key, fast, k1), key, fast));
            } else {
                assert(before[i] == v[i]);
            }
        }
        assert(presses(v, n, key, fast, k) =~= v.map_values(f));
    }
}

/// `k >= 1` presses of the right arrow without the modifier end where one move
/// of `k` canvas units does, for a display that starts at `x >= 0`.
proof fn lemma_right_presses(d: RecordView, k: nat)
    requires
        d.x >= 0,
        k >= 1,
    ensures
        pressed(d, Key::Right, false, k) == placed(d, d.x + 10 * k, d.y),
    decreases k,
{
    assert(key_delta(Key::Right, false) == (1int, 0int));
    if k == 1 {
        assert(pressed(d, Key::Right, false, 0) == d);
        assert(pressed(d, Key::Right, false, 1) == after_key(d, Key::Right, false));
    } else {
        let k1 = (k - 1) as nat;
        lemma_right_presses(d, k1);
        let e = pressed(d, Key::Right, false, k1);
        assert(pressed(d, Key::Right, false, k) == after_key(e, Key::Right, false));
        let q = d.x + 10 * k1;
        assert(e == placed(d, q, d.y));
        assert(max_x(e) == max_x(d) && max_y(e) == max_y(d));
        assert(q >= 0);
        assert(max_x(d) >= 0 && max_y(d) >= 0);
        assert(d.x + 10 * k == q + 10);
        assert(clamp(clamp(q, max_x(d)) + 10, max_x(d)) == clamp(q + 10, max_x(d)));
        assert(clamp(clamp(d.y, max_y(d)), max_y(d)) == clamp(d.y, max_y(d)));
    }
}

/// Pressing the right arrow `k` times without the modifier moves the display
/// called `n` as far as one `move_by(n, k, 0)`: the canvas edge stops both
/// alike. This holds for a display that starts at `x >= 0`, and for `k == 0`
/// only where it already lies inside the canvas (a move of 0 still commits it
/// inside, while no press leaves it where it was).
pub proof fn lemma_key_presses_add(m: CanvasModel, n: Seq<char>, k: nat)
    requires
        m.wf(),
        forall|i: int|
            0 <= i < m@.len() && (#[trigger] m@[i]).name == n ==> m@[i].x >= 0 && (k > 0 || fits(
                m@[i],
            )),
    ensures
        presses(m@, n, Key::Right, false, k) == update_named(
            m@,
            n,
            |d: RecordView| placed(d, d.x + 10 * k, d.y),
        ),
{
    let v = m@;
    lemma_presses_each(v, n, Key::Right, false, k);
    assert forall|i: int| 0 <= i < v.len() implies presses(v, n, Key::Right, false, k)[i]
        == update_named(v, n, |d: RecordView| placed(d, d.x + 10 * k, d.y))[i] by {
        if v[i].name == n {
            if k >= 1 {
                lemma_right_presses(v[i], k);
            } else {
                assert(fits(v[i]));
            }
        }
    }
    assert(presses(v, n, Key::Right, false, k) =~= update_named(
        v,
        n,
        |d: RecordView| placed(d, d.x + 10 * k, d.y),
    ));
}

} // verus!
