//! The schematic editor's actions: what a click, a drag, the rotate key, the
//! delete key or a right click does to a schematic. Where the pointer lands
//! (the grid point, the element under it) is worked out by the caller.
use vstd::prelude::*;
use vstd::string::StringExecFns;

use crate::text::{
    chars_of, has_prefix, is_ws, join, join_from, lemma_split_ws_sep, lemma_split_ws_word,
    slice_vec, split_whitespace, split_ws, starts_with, string_of, trim, trim_chars, views,
};
use crate::schematic::{
    step, turned, CompKind, Component, ComponentView, GridPt, Schematic,
    SchematicView, Tool, Wire,
};

verus! {

// ─── Helpers on points ───────────────────────────────────────────────────────

pub open spec fn fits_i32(x: int) -> bool {
    i32::MIN <= x <= i32::MAX
}

/// The grid point with coordinates `(x, y)`.
pub open spec fn grid_at(x: int, y: int) -> GridPt {
    GridPt(x as i32, y as i32)
}

/// The selection names elements that exist.
pub open spec fn selection_valid(s: SchematicView) -> bool {
    &&& (s.selected_component matches Some(i) ==> i < s.components.len())
    &&& (s.selected_wire matches Some(i) ==> i < s.wires.len())
}

/// Every wire end at `old` moved to `new`.
pub open spec fn move_ends(ws: Seq<Wire>, old: GridPt, new: GridPt) -> Seq<Wire> {
    ws.map_values(
        |w: Wire|
            Wire {
                p1: if w.p1 == old {
                    new
                } else {
                    w.p1
                },
                p2: if w.p2 == old {
                    new
                } else {
                    w.p2
                },
            },
    )
}

/// Every wire end at `a` or `b` moved by `(dx, dy)`.
pub open spec fn shift_ends(ws: Seq<Wire>, a: GridPt, b: GridPt, dx: int, dy: int) -> Seq<Wire> {
    ws.map_values(
        |w: Wire|
            Wire {
                p1: if w.p1 == a || w.p1 == b {
                    grid_at(w.p1.0 + dx, w.p1.1 + dy)
                } else {
                    w.p1
                },
                p2: if w.p2 == a || w.p2 == b {
                    grid_at(w.p2.0 + dx, w.p2.1 + dy)
                } else {
                    w.p2
                },
            },
    )
}

fn move_wire_ends(wires: &mut Vec<Wire>, from: GridPt, to: GridPt)
    ensures
        final(wires)@ == move_ends(old(wires)@, from, to),
{
    let ghost w0 = wires@;
    let mut k: usize = 0;
    while k < wires.len()
        invariant
            k <= wires.len(),
            wires.len() == w0.len(),
            forall|j: int| 0 <= j < k ==> wires@[j] == move_ends(w0, from, to)[j],
            forall|j: int| k <= j < wires.len() ==> wires@[j] == w0[j],
        decreases wires.len() - k,
    {
        let w = wires[k];
        let nw = Wire {
            p1: if w.p1 == from {
                to
            } else {
                w.p1
            },
            p2: if w.p2 == from {
                to
            } else {
                w.p2
            },
        };
        wires.set(k, nw);
        k += 1;
    }
    assert(wires@ =~= move_ends(w0, from, to));
}

fn shift_wire_ends(wires: &mut Vec<Wire>, a: GridPt, b: GridPt, dx: i32, dy: i32)
    requires
        fits_i32(a.0 + dx) && fits_i32(a.1 + dy),
        fits_i32(b.0 + dx) && fits_i32(b.1 + dy),
    ensures
        final(wires)@ == shift_ends(old(wires)@, a, b, dx as int, dy as int),
{
    let ghost w0 = wires@;
    let mut k: usize = 0;
    while k < wires.len()
        invariant
            k <= wires.len(),
            wires.len() == w0.len(),
            fits_i32(a.0 + dx) && fits_i32(a.1 + dy),
            fits_i32(b.0 + dx) && fits_i32(b.1 + dy),
            forall|j: int|
                0 <= j < k ==> wires@[j] == shift_ends(w0, a, b, dx as int, dy as int)[j],
            forall|j: int| k <= j < wires.len() ==> wires@[j] == w0[j],
        decreases wires.len() - k,
    {
        let w = wires[k];
        let p1 = if w.p1 == a || w.p1 == b {
            GridPt(w.p1.0 + dx, w.p1.1 + dy)
        } else {
            w.p1
        };
        let p2 = if w.p2 == a || w.p2 == b {
            GridPt(w.p2.0 + dx, w.p2.1 + dy)
        } else {
            w.p2
        };
        wires.set(k, Wire { p1, p2 });
        k += 1;
    }
    assert(wires@ =~= shift_ends(w0, a, b, dx as int, dy as int));
}

fn set_pins(components: &mut Vec<Component>, i: usize, p1: GridPt, p2: GridPt)
    requires
        i < old(components).len(),
    ensures
        final(components)@.map_values(|c: Component| c@) == old(components)@.map_values(
            |c: Component| c@,
        ).update(i as int, ComponentView { p1, p2, ..old(components)@[i as int]@ }),
{
    let c = &components[i];
    let nc = Component { kind: c.kind, p1, p2, val: c.val.clone() };
    components.set(i, nc);
    assert(final(components)@.map_values(|c: Component| c@) =~= old(components)@.map_values(
        |c: Component| c@,
    ).update(i as int, ComponentView { p1, p2, ..old(components)@[i as int]@ }));
}

// ─── Rotate ──────────────────────────────────────────────────────────────────

/// The second pin turned a quarter turn about the first.
pub open spec fn rotated_pin(p1: GridPt, p2: GridPt) -> (int, int) {
    (p1.0 - (p2.1 - p1.1), p1.1 + (p2.0 - p1.0))
}

/// The rotate key: turns the selected component a quarter turn about its
/// first pin, taking along the wires at its second pin; with nothing
/// selected, turns the direction that new elements will point in.
pub open spec fn rotated(s: SchematicView) -> SchematicView {
    match s.selected_component {
        Some(i) => if i < s.components.len() {
            let c = s.components[i as int];
            let r = rotated_pin(c.p1, c.p2);
            let np = grid_at(r.0, r.1);
            SchematicView {
                components: s.components.update(i as int, ComponentView { p2: np, ..c }),
                wires: move_ends(s.wires, c.p2, np),
                ..s
            }
        } else {
            s
        },
        None => SchematicView { current_dir: turned(s.current_dir), ..s },
    }
}

/// The turn stays on the grid.
pub open spec fn can_rotate(s: SchematicView) -> bool {
    match s.selected_component {
        Some(i) => i < s.components.len() ==> {
            let c = s.components[i as int];
            &&& fits_i32(c.p2.0 - c.p1.0)
            &&& fits_i32(c.p2.1 - c.p1.1)
            &&& fits_i32(-(c.p2.1 - c.p1.1))
            &&& fits_i32(rotated_pin(c.p1, c.p2).0)
            &&& fits_i32(rotated_pin(c.p1, c.p2).1)
        },
        None => true,
    }
}

impl Schematic {
    /// The rotate key.
    pub fn rotate(&mut self)
        requires
            can_rotate(old(self)@),
        ensures
            final(self)@ == rotated(old(self)@),
    {
        match self.selected_component {
            Some(idx) => {
                if idx < self.components.len() {
                    proof {
                        assert(self@.components[idx as int] == self.components@[idx as int]@);
                    }
                    let p1 = self.components[idx].p1;
                    let old_p2 = self.components[idx].p2;
                    let dx = old_p2.0 - p1.0;
                    let dy = old_p2.1 - p1.1;
                    let new_dx = -dy;
                    let new_dy = dx;
                    let np = GridPt(p1.0 + new_dx, p1.1 + new_dy);
                    set_pins(&mut self.components, idx, p1, np);
                    move_wire_ends(&mut self.wires, old_p2, np);
                }
            },
            None => {
                self.current_dir = self.current_dir.next();
            },
        }
    }
}

// ─── Click ───────────────────────────────────────────────────────────────────

/// The element a placing tool puts down.
pub open spec fn tool_kind(t: Tool) -> CompKind {
    match t {
        Tool::R => CompKind::Resistor,
        Tool::C => CompKind::Capacitor,
        Tool::L => CompKind::Inductor,
        Tool::V => CompKind::Voltage,
        _ => CompKind::Ground,
    }
}

/// The value a new element starts with.
pub open spec fn default_value(k: CompKind) -> Seq<char> {
    match k {
        CompKind::Resistor => "1k"@,
        CompKind::Capacitor => "1u"@,
        CompKind::Inductor => "1m"@,
        CompKind::Voltage => "DC 5"@,
        CompKind::Ground => Seq::empty(),
    }
}

/// A click at grid point `pt`. The wire tool starts a wire, or ends it (a
/// wire of no length is dropped); R, C, L and V put down an element three
/// units long in the current direction; the ground tool a ground symbol. The
/// select tool selects the component under the pointer (`hit_component`),
/// else the wire (`hit_wire`). Any tool but select clears the selected
/// component.
pub open spec fn clicked(
    s: SchematicView,
    pt: GridPt,
    hit_component: Option<usize>,
    hit_wire: Option<usize>,
) -> SchematicView {
    let s1 = match s.tool {
        Tool::Wire => match s.active_wire_start {
            Some(start) => SchematicView {
                wires: if start != pt {
                    s.wires.push(Wire { p1: start, p2: pt })
                } else {
                    s.wires
                },
                active_wire_start: None,
                ..s
            },
            None => SchematicView { active_wire_start: Some(pt), ..s },
        },
        Tool::Gnd => SchematicView {
            components: s.components.push(
                ComponentView { kind: CompKind::Ground, p1: pt, p2: pt, val: Seq::empty() },
            ),
            ..s
        },
        Tool::Select => SchematicView {
            selected_component: hit_component,
            selected_wire: if hit_component is None {
                hit_wire
            } else {
                None
            },
            ..s
        },
        _ => {
            let k = tool_kind(s.tool);
            let d = step(s.current_dir, 3);
            SchematicView {
                components: s.components.push(
                    ComponentView {
                        kind: k,
                        p1: pt,
                        p2: grid_at(pt.0 + d.0, pt.1 + d.1),
                        val: default_value(k),
                    },
                ),
                ..s
            }
        },
    };
    if s.tool != Tool::Select {
        SchematicView { selected_component: None, ..s1 }
    } else {
        s1
    }
}

/// A placed element stays on the grid.
pub open spec fn can_click(s: SchematicView, pt: GridPt) -> bool {
    let d = step(s.current_dir, 3);
    fits_i32(pt.0 + d.0) && fits_i32(pt.1 + d.1)
}

impl Schematic {
    /// A click on the canvas.
    pub fn click(&mut self, pt: GridPt, hit_component: Option<usize>, hit_wire: Option<usize>)
        requires
            can_click(old(self)@, pt),
        ensures
            final(self)@ == clicked(old(self)@, pt, hit_component, hit_wire),
    {
        match self.tool {
            Tool::Wire => {
                match self.active_wire_start {
                    Some(start) => {
                        if start != pt {
                            self.wires.push(Wire { p1: start, p2: pt });
                        }
                        self.active_wire_start = None;
                    },
                    None => {
                        self.active_wire_start = Some(pt);
                    },
                }
            },
            Tool::Gnd => {
                let ghost before = self.components@;
                self.components.push(
                    Component { kind: CompKind::Ground, p1: pt, p2: pt, val: String::new() },
                );
                assert(self.components@.map_values(|c: Component| c@) =~= before.map_values(
                    |c: Component| c@,
                ).push(ComponentView { kind: CompKind::Ground, p1: pt, p2: pt, val: Seq::empty() }));
            },
            Tool::Select => {
                self.selected_component = hit_component;
                self.selected_wire = if hit_component.is_none() {
                    hit_wire
                } else {
                    None
                };
            },
            _ => {
                let (kind, val) = match self.tool {
                    Tool::R => (CompKind::Resistor, "1k"),
                    Tool::C => (CompKind::Capacitor, "1u"),
                    Tool::L => (CompKind::Inductor, "1m"),
                    _ => (CompKind::Voltage, "DC 5"),
                };
                let (dx, dy) = self.current_dir.offset(3);
                let p2 = GridPt(pt.0 + dx, pt.1 + dy);
                let ghost before = self.components@;
                self.components.push(Component { kind, p1: pt, p2, val: String::from_str(val) });
                assert(self.components@.map_values(|c: Component| c@) =~= before.map_values(
                    |c: Component| c@,
                ).push(ComponentView { kind, p1: pt, p2, val: val@ }));
            },
        }
        if self.tool != Tool::Select {
            self.selected_component = None;
        }
    }
}

/// Each placing tool puts down one element of its own kind, with its
/// starting value, at the click and three units on in the current direction:
/// R a `1k` resistor, C a `1u` capacitor, L a `1m` inductor, V a `DC 5`
/// source. The elements and wires already there stay as they were.
pub proof fn law_tools_place_their_kinds(
    s: SchematicView,
    pt: GridPt,
    hit_component: Option<usize>,
    hit_wire: Option<usize>,
)
    requires
        s.tool == Tool::R || s.tool == Tool::C || s.tool == Tool::L || s.tool == Tool::V,
    ensures
        ({
            let r = clicked(s, pt, hit_component, hit_wire);
            let c = r.components.last();
            let d = step(s.current_dir, 3);
            &&& r.components.len() == s.components.len() + 1
            &&& r.components.drop_last() == s.components
            &&& r.wires == s.wires
            &&& c.p1 == pt
            &&& c.p2 == grid_at(pt.0 + d.0, pt.1 + d.1)
            &&& s.tool == Tool::R ==> c.kind == CompKind::Resistor && c.val == "1k"@
            &&& s.tool == Tool::C ==> c.kind == CompKind::Capacitor && c.val == "1u"@
            &&& s.tool == Tool::L ==> c.kind == CompKind::Inductor && c.val == "1m"@
            &&& s.tool == Tool::V ==> c.kind == CompKind::Voltage && c.val == "DC 5"@
        }),
{
    let r = clicked(s, pt, hit_component, hit_wire);
    assert(r.components.drop_last() =~= s.components);
}

// ─── Drag ────────────────────────────────────────────────────────────────────

/// A drag begins at grid point `grid` over component `hit` (if any): the
/// select tool selects it and remembers where the drag is.
pub open spec fn drag_started(s: SchematicView, hit: Option<usize>, grid: GridPt) -> SchematicView {
    if s.tool != Tool::Select {
        s
    } else if hit is Some {
        SchematicView {
            selected_component: hit,
            selected_wire: None,
            drag_last_grid: Some(grid),
            ..s
        }
    } else {
        SchematicView { drag_last_grid: None, ..s }
    }
}

/// The drag reaches grid point `grid`: the selected component moves by the
/// step from the last point, and so do the wire ends at its pins.
pub open spec fn dragged(s: SchematicView, grid: GridPt) -> SchematicView {
    if s.tool != Tool::Select {
        s
    } else {
        match (s.selected_component, s.drag_last_grid) {
            (Some(i), Some(last)) => if grid != last {
                let dx = grid.0 - last.0;
                let dy = grid.1 - last.1;
                let s1 = if i < s.components.len() {
                    let c = s.components[i as int];
                    SchematicView {
                        components: s.components.update(
                            i as int,
                            ComponentView {
                                p1: grid_at(c.p1.0 + dx, c.p1.1 + dy),
                                p2: grid_at(c.p2.0 + dx, c.p2.1 + dy),
                                ..c
                            },
                        ),
                        wires: shift_ends(s.wires, c.p1, c.p2, dx, dy),
                        ..s
                    }
                } else {
                    s
                };
                SchematicView { drag_last_grid: Some(grid), ..s1 }
            } else {
                s
            },
            _ => s,
        }
    }
}

/// The move stays on the grid.
pub open spec fn can_drag(s: SchematicView, grid: GridPt) -> bool {
    match (s.selected_component, s.drag_last_grid) {
        (Some(i), Some(last)) => {
            let dx = grid.0 - last.0;
            let dy = grid.1 - last.1;
            &&& fits_i32(dx)
            &&& fits_i32(dy)
            &&& (i < s.components.len() ==> {
                let c = s.components[i as int];
                fits_i32(c.p1.0 + dx) && fits_i32(c.p1.1 + dy) && fits_i32(c.p2.0 + dx)
                    && fits_i32(c.p2.1 + dy)
            })
        },
        _ => true,
    }
}

impl Schematic {
    /// A drag starts.
    pub fn drag_start(&mut self, hit: Option<usize>, grid: GridPt)
        ensures
            final(self)@ == drag_started(old(self)@, hit, grid),
    {
        if self.tool != Tool::Select {
            return;
        }
        if hit.is_some() {
            self.selected_component = hit;
            self.selected_wire = None;
            self.drag_last_grid = Some(grid);
        } else {
            self.drag_last_grid = None;
        }
    }

    /// The drag moves on.
    pub fn drag_to(&mut self, grid: GridPt)
        requires
            can_drag(old(self)@, grid),
        ensures
            final(self)@ == dragged(old(self)@, grid),
    {
        if self.tool != Tool::Select {
            return;
        }
        match (self.selected_component, self.drag_last_grid) {
            (Some(idx), Some(last)) => {
                if grid != last {
                    let dx = grid.0 - last.0;
                    let dy = grid.1 - last.1;
                    if idx < self.components.len() {
                        proof {
                            assert(self@.components[idx as int] == self.components@[idx as int]@);
                        }
                        let p1 = self.components[idx].p1;
                        let p2 = self.components[idx].p2;
                        set_pins(
                            &mut self.components,
                            idx,
                            GridPt(p1.0 + dx, p1.1 + dy),
                            GridPt(p2.0 + dx, p2.1 + dy),
                        );
                        shift_wire_ends(&mut self.wires, p1, p2, dx, dy);
                    }
                    self.drag_last_grid = Some(grid);
                }
            },
            _ => {},
        }
    }
}

// ─── Cancel and delete ───────────────────────────────────────────────────────

/// A right click: drops the wire being drawn and the selection.
pub open spec fn cancelled(s: SchematicView) -> SchematicView {
    SchematicView {
        active_wire_start: None,
        selected_component: None,
        selected_wire: None,
        ..s
    }
}

/// The delete key: removes the selected wire, or else the selected
/// component.
pub open spec fn deleted(s: SchematicView) -> SchematicView {
    match s.selected_wire {
        Some(w) => SchematicView { wires: s.wires.remove(w as int), selected_wire: None, ..s },
        None => match s.selected_component {
            Some(c) => SchematicView {
                components: s.components.remove(c as int),
                selected_component: None,
                ..s
            },
            None => s,
        },
    }
}

/// The delete button of the selected wire's panel.
pub open spec fn wire_deleted(s: SchematicView, w: int) -> SchematicView {
    SchematicView { wires: s.wires.remove(w), selected_wire: None, ..s }
}

/// The delete button of the selected component's panel.
pub open spec fn component_deleted(s: SchematicView, c: int) -> SchematicView {
    SchematicView { components: s.components.remove(c), selected_component: None, ..s }
}

impl Schematic {
    /// A right click on the canvas.
    pub fn cancel(&mut self)
        ensures
            final(self)@ == cancelled(old(self)@),
    {
        self.active_wire_start = None;
        self.selected_component = None;
        self.selected_wire = None;
    }

    /// The delete key.
    pub fn delete_selected(&mut self)
        requires
            selection_valid(old(self)@),
        ensures
            final(self)@ == deleted(old(self)@),
    {
        match self.selected_wire {
            Some(wi) => {
                self.wires.remove(wi);
                self.selected_wire = None;
            },
            None => match self.selected_component {
                Some(ci) => {
                    let ghost before = self.components@;
                    self.components.remove(ci);
                    assert(self.components@.map_values(|c: Component| c@) =~= before.map_values(
                        |c: Component| c@,
                    ).remove(ci as int));
                    self.selected_component = None;
                },
                None => {},
            },
        }
    }

    /// Removes wire `wi` and clears the wire selection.
    pub fn delete_wire(&mut self, wi: usize)
        requires
            wi < old(self).wires.len(),
        ensures
            final(self)@ == wire_deleted(old(self)@, wi as int),
    {
        self.wires.remove(wi);
        self.selected_wire = None;
    }

    /// Removes component `ci` and clears the component selection.
    pub fn delete_component(&mut self, ci: usize)
        requires
            ci < old(self).components.len(),
        ensures
            final(self)@ == component_deleted(old(self)@, ci as int),
    {
        let ghost before = self.components@;
        self.components.remove(ci);
        assert(self.components@.map_values(|c: Component| c@) =~= before.map_values(
            |c: Component| c@,
        ).remove(ci as int));
        self.selected_component = None;
    }
}

// ─── The selection stays valid ───────────────────────────────────────────────

/// Every editor action keeps the selection pointing at elements that exist
/// (given a hit, from the caller, that does).
pub proof fn law_selection_stays_valid(
    s: SchematicView,
    pt: GridPt,
    hit_component: Option<usize>,
    hit_wire: Option<usize>,
    grid: GridPt,
    w: int,
    c: int,
)
    requires
        selection_valid(s),
        hit_component matches Some(i) ==> i < s.components.len(),
        hit_wire matches Some(i) ==> i < s.wires.len(),
    ensures
        selection_valid(rotated(s)),
        selection_valid(clicked(s, pt, hit_component, hit_wire)),
        selection_valid(drag_started(s, hit_component, grid)),
        selection_valid(dragged(s, grid)),
        selection_valid(cancelled(s)),
        selection_valid(deleted(s)),
        0 <= w < s.wires.len() ==> selection_valid(wire_deleted(s, w)),
        0 <= c < s.components.len() ==> selection_valid(component_deleted(s, c)),
{
}

} // verus!

verus! {

// ─── Voltage source settings ─────────────────────────────────────────────────

/// The forms a voltage source's value takes in the editor.
#[derive(Clone, Copy, PartialEq, Eq, Structural, Debug)]
pub enum SourceKind {
    Dc,
    Ac,
    Sin,
    Pulse,
}

pub open spec fn kind_word(k: SourceKind) -> Seq<char> {
    match k {
        SourceKind::Dc => "DC"@,
        SourceKind::Ac => "AC"@,
        SourceKind::Sin => "SIN"@,
        SourceKind::Pulse => "PULSE"@,
    }
}

/// The form of a source's value, by how it starts (DC when nothing else
/// matches).
pub open spec fn source_kind(val: Seq<char>) -> SourceKind {
    if starts_with(val, "SIN"@) {
        SourceKind::Sin
    } else if starts_with(val, "PULSE"@) {
        SourceKind::Pulse
    } else if starts_with(val, "AC"@) {
        SourceKind::Ac
    } else {
        SourceKind::Dc
    }
}

/// The value a source takes when its form is changed.
pub open spec fn source_template(k: SourceKind) -> Seq<char> {
    match k {
        SourceKind::Dc => "DC 5"@,
        SourceKind::Ac => "AC 1 0"@,
        SourceKind::Sin => "SIN(0 5 1k 0 0)"@,
        SourceKind::Pulse => "PULSE(0 5 1m 1u 1u 5m 10m)"@,
    }
}

/// How many settings each form has.
pub open spec fn field_count(k: SourceKind) -> nat {
    match k {
        SourceKind::Dc => 1,
        SourceKind::Ac => 2,
        SourceKind::Sin => 5,
        SourceKind::Pulse => 7,
    }
}

/// The first position of `c` in `s`.
pub open spec fn first_of(s: Seq<char>, c: char) -> Option<int> {
    if exists|i: int| 0 <= i < s.len() && s[i] == c {
        Some(choose|i: int| 0 <= i < s.len() && s[i] == c && forall|j: int| 0 <= j < i ==> s[j] != c)
    } else {
        None
    }
}

/// The last position of `c` in `s`.
pub open spec fn last_of(s: Seq<char>, c: char) -> Option<int> {
    if exists|i: int| 0 <= i < s.len() && s[i] == c {
        Some(
            choose|i: int| 0 <= i < s.len() && s[i] == c && forall|j: int| i < j < s.len() ==> s[j] != c,
        )
    } else {
        None
    }
}

/// The words of a source's value: between the first `(` and the last `)`
/// for a sine or a pulse, after the form's name otherwise.
pub open spec fn source_words(val: Seq<char>, k: SourceKind) -> Seq<Seq<char>> {
    if k == SourceKind::Sin || k == SourceKind::Pulse {
        match first_of(val, '(') {
            Some(start) => {
                let end = match last_of(val, ')') {
                    Some(e) => e,
                    None => val.len() as int,
                };
                split_ws(val.subrange(start + 1, end))
            },
            None => Seq::empty(),
        }
    } else {
        let w = kind_word(k);
        let inner = if starts_with(val, w) {
            trim(val.skip(w.len() as int))
        } else {
            trim(val)
        };
        split_ws(inner)
    }
}

/// The words cut or padded with empty ones to `n`.
pub open spec fn fitted(words: Seq<Seq<char>>, n: nat) -> Seq<Seq<char>> {
    if words.len() >= n {
        words.take(n as int)
    } else {
        words + Seq::new((n - words.len()) as nat, |i: int| Seq::<char>::empty())
    }
}

/// The settings of a source's value, one per field of its form.
pub open spec fn source_fields_spec(val: Seq<char>, k: SourceKind) -> Seq<Seq<char>> {
    fitted(source_words(val, k), field_count(k))
}

/// The parentheses are not the wrong way round: no `)` comes last before the
/// first `(`.
pub open spec fn parens_in_order(val: Seq<char>) -> bool {
    match (first_of(val, '('), last_of(val, ')')) {
        (Some(a), Some(b)) => a < b,
        _ => true,
    }
}

pub open spec fn or_zero(f: Seq<char>) -> Seq<char> {
    if f.len() == 0 {
        "0"@
    } else {
        f
    }
}

/// A source's value rebuilt from its settings (an empty DC or AC setting
/// reads as 0).
pub open spec fn source_value_spec(k: SourceKind, fields: Seq<Seq<char>>) -> Seq<char> {
    match k {
        SourceKind::Dc => "DC "@ + or_zero(fields[0]),
        SourceKind::Ac => "AC "@ + or_zero(fields[0]) + " "@ + or_zero(fields[1]),
        SourceKind::Sin => "SIN("@ + join(fields, " "@) + ")"@,
        SourceKind::Pulse => "PULSE("@ + join(fields, " "@) + ")"@,
    }
}

/// A setting that reads back as one word: not empty, no blank in it.
pub open spec fn single_word(w: Seq<char>) -> bool {
    w.len() > 0 && forall|i: int| 0 <= i < w.len() ==> !is_ws(#[trigger] w[i])
}

proof fn lemma_split_joined(f: Seq<Seq<char>>)
    requires
        f.len() > 0,
        forall|i: int| 0 <= i < f.len() ==> single_word(#[trigger] f[i]),
    ensures
        split_ws(join(f, " "@)) == f,
    decreases f.len(),
{
    assert(single_word(f[f.len() - 1]));
    lemma_split_ws_word(f.last());
    if f.len() == 1 {
        assert(f =~= seq![f[0]]);
    } else {
        let g = f.drop_last();
        assert forall|i: int| 0 <= i < g.len() implies single_word(#[trigger] g[i]) by {
            assert(g[i] == f[i]);
        }
        lemma_split_joined(g);
        reveal_strlit(" ");
        assert(is_ws(' '));
        assert(join(f, " "@) == join(g, " "@) + seq![' '] + f.last());
        lemma_split_ws_sep(join(g, " "@), ' ', f.last());
        assert(f =~= g.push(f.last()));
    }
}

/// Rebuilding a sine (five settings) or a pulse (seven) from its settings
/// and reading the settings back gives every one of them again, in order,
/// when each is one word.
pub proof fn law_wave_settings_round_trip(k: SourceKind, f: Seq<Seq<char>>)
    requires
        (k == SourceKind::Pulse && f.len() == 7) || (k == SourceKind::Sin && f.len() == 5),
        forall|i: int| 0 <= i < f.len() ==> single_word(#[trigger] f[i]),
    ensures
        source_fields_spec(source_value_spec(k, f), k) == f,
{
    let body = join(f, " "@);
    let val = source_value_spec(k, f);
    let w: Seq<char> = if k == SourceKind::Pulse {
        seq!['P', 'U', 'L', 'S', 'E']
    } else {
        seq!['S', 'I', 'N']
    };
    reveal_strlit("PULSE(");
    reveal_strlit("SIN(");
    reveal_strlit(")");
    assert(val =~= w + seq!['('] + body + seq![')']);
    let n = w.len() as int;
    assert(val[n] == '(');
    let a = first_of(val, '(').unwrap();
    assert(first_of(val, '(') is Some);
    if a < n {
        assert(val[a] == w[a]);
    } else if a > n {
        assert(val[n] == '(');
    }
    assert(a == n);
    assert(val[val.len() - 1] == ')');
    let b = last_of(val, ')').unwrap();
    assert(last_of(val, ')') is Some);
    assert(b == val.len() - 1);
    assert(val.subrange(n + 1, val.len() - 1) =~= body);
    lemma_split_joined(f);
    assert(f.take(f.len() as int) =~= f);
}

fn prefix_is(v: &Vec<char>, p: &str) -> (r: bool)
    ensures
        r == starts_with(v@, p@),
{
    let pc = chars_of(p);
    has_prefix(v.as_slice(), pc.as_slice())
}

/// The form of a source's value.
pub fn source_kind_of(val: &str) -> (k: SourceKind)
    ensures
        k == source_kind(val@),
{
    let v = chars_of(val);
    if prefix_is(&v, "SIN") {
        SourceKind::Sin
    } else if prefix_is(&v, "PULSE") {
        SourceKind::Pulse
    } else if prefix_is(&v, "AC") {
        SourceKind::Ac
    } else {
        SourceKind::Dc
    }
}

/// The value a source takes when its form is changed.
pub fn template_of(k: SourceKind) -> (s: &'static str)
    ensures
        s@ == source_template(k),
{
    match k {
        SourceKind::Dc => "DC 5",
        SourceKind::Ac => "AC 1 0",
        SourceKind::Sin => "SIN(0 5 1k 0 0)",
        SourceKind::Pulse => "PULSE(0 5 1m 1u 1u 5m 10m)",
    }
}

fn first_index(s: &Vec<char>, c: char) -> (r: Option<usize>)
    ensures
        match r {
            Some(i) => i < s.len() && s@[i as int] == c && first_of(s@, c) == Some(i as int),
            None => first_of(s@, c) is None,
        },
{
    let mut i: usize = 0;
    while i < s.len()
        invariant
            i <= s.len(),
            forall|j: int| 0 <= j < i ==> s@[j] != c,
        decreases s.len() - i,
    {
        if s[i] == c {
            proof {
                let k = choose|k: int|
                    0 <= k < s@.len() && s@[k] == c && forall|j: int| 0 <= j < k ==> s@[j] != c;
                assert(0 <= i < s@.len() && s@[i as int] == c && forall|j: int|
                    0 <= j < i ==> s@[j] != c);
                if k < i {
                } else if k > i {
                    assert(s@[i as int] != c);
                }
            }
            return Some(i);
        }
        i += 1;
    }
    None
}

fn last_index(s: &Vec<char>, c: char) -> (r: Option<usize>)
    ensures
        match r {
            Some(i) => i < s.len() && s@[i as int] == c && last_of(s@, c) == Some(i as int),
            None => last_of(s@, c) is None,
        },
{
    let mut i: usize = s.len();
    while i > 0
        invariant
            i <= s.len(),
            forall|j: int| i <= j < s.len() ==> s@[j] != c,
        decreases i,
    {
        if s[i - 1] == c {
            proof {
                let k = choose|k: int|
                    0 <= k < s@.len() && s@[k] == c && forall|j: int| k < j < s@.len() ==> s@[j]
                        != c;
                assert(0 <= i - 1 < s@.len() && s@[i - 1] == c && forall|j: int|
                    i - 1 < j < s@.len() ==> s@[j] != c);
                if k < i - 1 {
                    assert(s@[i - 1] != c);
                }
            }
            return Some(i - 1);
        }
        i -= 1;
    }
    None
}

/// The settings of a source's value for the editor's fields.
pub fn source_fields(val: &str, k: SourceKind) -> (fields: Vec<String>)
    requires
        parens_in_order(val@),
    ensures
        fields@.map_values(|f: String| f@) == source_fields_spec(val@, k),
{
    let v = chars_of(val);
    let words: Vec<Vec<char>> = if k == SourceKind::Sin || k == SourceKind::Pulse {
        match first_index(&v, '(') {
            Some(start) => {
                let end = match last_index(&v, ')') {
                    Some(e) => e,
                    None => v.len(),
                };
                let inner = slice_vec(v.as_slice(), start + 1, end);
                split_whitespace(inner.as_slice())
            },
            None => Vec::new(),
        }
    } else {
        let w = chars_of(match k {
            SourceKind::Dc => "DC",
            SourceKind::Ac => "AC",
            SourceKind::Sin => "SIN",
            SourceKind::Pulse => "PULSE",
        });
        let inner = if has_prefix(v.as_slice(), w.as_slice()) {
            let rest = slice_vec(v.as_slice(), w.len(), v.len());
            assert(rest@ =~= v@.skip(w.len() as int));
            trim_chars(rest.as_slice())
        } else {
            trim_chars(v.as_slice())
        };
        split_whitespace(inner.as_slice())
    };
    let ghost ws = views(words@);
    assert(ws == source_words(val@, k));
    let n: usize = match k {
        SourceKind::Dc => 1,
        SourceKind::Ac => 2,
        SourceKind::Sin => 5,
        SourceKind::Pulse => 7,
    };
    let mut fields: Vec<String> = Vec::new();
    let mut i: usize = 0;
    while i < n
        invariant
            i <= n,
            n == field_count(k),
            ws == views(words@),
            fields.len() == i,
            forall|j: int| 0 <= j < i ==> fields@[j]@ == fitted(ws, n as nat)[j],
        decreases n - i,
    {
        if i < words.len() {
            assert(ws[i as int] == words@[i as int]@);
            fields.push(string_of(words[i].as_slice()));
        } else {
            fields.push(String::new());
        }
        i += 1;
    }
    assert(fields@.map_values(|f: String| f@) =~= fitted(ws, n as nat));
    fields
}

/// A source's value rebuilt from the editor's fields.
pub fn source_value(k: SourceKind, fields: &Vec<String>) -> (val: String)
    requires
        fields.len() >= field_count(k),
    ensures
        val@ == source_value_spec(k, fields@.map_values(|f: String| f@)),
{
    let ghost fs = fields@.map_values(|f: String| f@);
    match k {
        SourceKind::Dc => {
            assert(fs[0] == fields@[0]@);
            let a = if fields[0].as_str().unicode_len() == 0 { "0" } else { fields[0].as_str() };
            String::from_str("DC ").concat(a)
        },
        SourceKind::Ac => {
            assert(fs[0] == fields@[0]@);
            assert(fs[1] == fields@[1]@);
            let a = if fields[0].as_str().unicode_len() == 0 { "0" } else { fields[0].as_str() };
            let b = if fields[1].as_str().unicode_len() == 0 { "0" } else { fields[1].as_str() };
            String::from_str("AC ").concat(a).concat(" ").concat(b)
        },
        _ => {
            let mut words: Vec<Vec<char>> = Vec::new();
            let mut i: usize = 0;
            while i < fields.len()
                invariant
                    i <= fields.len(),
                    fs == fields@.map_values(|f: String| f@),
                    views(words@) == fs.take(i as int),
                decreases fields.len() - i,
            {
                assert(fs[i as int] == fields@[i as int]@);
                let w = chars_of(fields[i].as_str());
                assert(w@ == fs[i as int]);
                let ghost before = words@;
                words.push(w);
                assert(views(words@) =~= views(before).push(w@));
                assert(fs.take(i + 1) =~= fs.take(i as int).push(fs[i as int]));
                i += 1;
            }
            assert(fs.take(fields.len() as int) =~= fs);
            let sep: Vec<char> = vec![' '];
            proof {
                reveal_strlit(" ");
                assert(sep@ =~= " "@);
                assert(views(words@).skip(0) =~= views(words@));
            }
            let joined = join_from(&words, 0, sep.as_slice());
            let head = if k == SourceKind::Sin { "SIN(" } else { "PULSE(" };
            String::from_str(head).concat(string_of(joined.as_slice()).as_str()).concat(")")
        },
    }
}

/// Changing a source's form: a new form brings its template value.
pub open spec fn source_kind_changed(s: SchematicView, i: int, k: SourceKind) -> SchematicView {
    if k != source_kind(s.components[i].val) {
        SchematicView {
            components: s.components.update(
                i,
                ComponentView { val: source_template(k), ..s.components[i] },
            ),
            ..s
        }
    } else {
        s
    }
}

impl Schematic {
    /// Picks the form of voltage source `i`.
    pub fn change_source_kind(&mut self, i: usize, k: SourceKind)
        requires
            i < old(self).components.len(),
        ensures
            final(self)@ == source_kind_changed(old(self)@, i as int, k),
    {
        proof {
            assert(self@.components[i as int] == self.components@[i as int]@);
        }
        if k != source_kind_of(self.components[i].val.as_str()) {
            let c = &self.components[i];
            let nc = Component { kind: c.kind, p1: c.p1, p2: c.p2, val: String::from_str(template_of(k)) };
            let ghost before = self.components@;
            self.components.set(i, nc);
            assert(self.components@.map_values(|c: Component| c@) =~= before.map_values(
                |c: Component| c@,
            ).update(i as int, ComponentView { val: source_template(k), ..before[i as int]@ }));
        }
    }
}

} // verus!
