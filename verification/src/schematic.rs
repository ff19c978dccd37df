//! The schematic editor's model: grid points, components, wires, the
//! union-find that turns wired points into nets, and the conversions between
//! schematics and netlist text.
use vstd::prelude::*;
use vstd::string::StringExecFns;

use crate::text::{dec, push_decimal, string_of};

verus! {

// ─── Directions ──────────────────────────────────────────────────────────────

#[derive(Clone, Copy, PartialEq, Eq, Structural, Debug)]
pub enum Direction {
    Right,
    Down,
    Left,
    Up,
}

/// The direction a quarter turn clockwise (on a screen, y down).
pub open spec fn turned(d: Direction) -> Direction {
    match d {
        Direction::Right => Direction::Down,
        Direction::Down => Direction::Left,
        Direction::Left => Direction::Up,
        Direction::Up => Direction::Right,
    }
}

/// The grid step of `length` units in direction `d`.
pub open spec fn step(d: Direction, length: int) -> (int, int) {
    match d {
        Direction::Right => (length, 0),
        Direction::Down => (0, length),
        Direction::Left => (-length, 0),
        Direction::Up => (0, -length),
    }
}

impl Direction {
    /// The direction a quarter turn clockwise.
    pub fn next(self) -> (d: Self)
        ensures
            d == turned(self),
    {
        match self {
            Direction::Right => Direction::Down,
            Direction::Down => Direction::Left,
            Direction::Left => Direction::Up,
            Direction::Up => Direction::Right,
        }
    }

    /// The step of `length` grid units in this direction.
    pub fn offset(self, length: i32) -> (r: (i32, i32))
        requires
            length > i32::MIN,
        ensures
            (r.0 as int, r.1 as int) == step(self, length as int),
    {
        match self {
            Direction::Right => (length, 0),
            Direction::Down => (0, length),
            Direction::Left => (-length, 0),
            Direction::Up => (0, -length),
        }
    }
}

/// Four quarter turns come back to the start.
pub proof fn law_four_turns(d: Direction)
    ensures
        turned(turned(turned(turned(d)))) == d,
{
}

/// Turning a quarter turn rotates the step: `(x, y)` becomes `(-y, x)`.
pub proof fn law_turn_rotates_step(d: Direction, length: int)
    ensures
        step(turned(d), length) == (-step(d, length).1, step(d, length).0),
{
}

// ─── Union-find ──────────────────────────────────────────────────────────────

/// Follows parent links from `i`, at most `n` times.
pub open spec fn climb(parent: Seq<usize>, i: int, n: nat) -> int
    decreases n,
{
    if n == 0 || parent[i] == i {
        i
    } else {
        climb(parent, parent[i] as int, (n - 1) as nat)
    }
}

/// Disjoint sets over `0..n`, with path compression. A ghost rank grows
/// strictly along parent links, which keeps the links free of cycles.
pub struct Dsu {
    parent: Vec<usize>,
    rank: Ghost<Seq<nat>>,
    bound: Ghost<nat>,
}

impl Dsu {
    pub closed spec fn wf(&self) -> bool {
        let p = self.parent@;
        let r = self.rank@;
        &&& r.len() == p.len()
        &&& forall|i: int| 0 <= i < p.len() ==> p[i] < p.len()
        &&& forall|i: int| 0 <= i < p.len() ==> r[i] < self.bound@
        &&& forall|i: int| 0 <= i < p.len() && p[i] != i ==> r[p[i] as int] > r[i]
    }

    pub closed spec fn len(&self) -> nat {
        self.parent@.len()
    }

    /// The element that `i` links to: its representative when the two are
    /// one step apart.
    pub closed spec fn link(&self, i: int) -> int {
        self.parent@[i] as int
    }

    /// How far `i` may still be from its representative.
    pub closed spec fn height(&self, i: int) -> nat {
        (self.bound@ - self.rank@[i]) as nat
    }

    /// The representative of `i`'s set.
    pub closed spec fn root(&self, i: int) -> int {
        climb(self.parent@, i, self.bound@)
    }

    proof fn lemma_climb(&self, i: int, n: nat)
        requires
            self.wf(),
            0 <= i < self.len(),
            n >= self.bound@ - self.rank@[i],
        ensures
            climb(self.parent@, i, n) == self.root(i),
            0 <= self.root(i) < self.len(),
            self.parent@[self.root(i)] == self.root(i),
            self.root(i) != i ==> self.rank@[self.root(i)] > self.rank@[i],
        decreases self.bound@ - self.rank@[i],
    {
        let p = self.parent@;
        if p[i] != i {
            let q = p[i] as int;
            self.lemma_climb(q, (n - 1) as nat);
            self.lemma_climb(q, (self.bound@ - 1) as nat);
            assert(self.bound@ > 0);
            assert(climb(p, i, self.bound@) == climb(p, q, (self.bound@ - 1) as nat));
        }
    }

    pub proof fn lemma_root(&self, i: int)
        requires
            self.wf(),
            0 <= i < self.len(),
        ensures
            0 <= self.root(i) < self.len(),
            self.root(self.root(i)) == self.root(i),
    {
        self.lemma_climb(i, self.bound@);
        let r = self.root(i);
        self.lemma_climb(r, self.bound@);
        if self.bound@ > 0 {
            assert(climb(self.parent@, r, self.bound@) == r);
        }
    }

    /// Every element in a set of its own.
    pub fn new(size: usize) -> (d: Dsu)
        ensures
            d.wf(),
            d.len() == size,
            forall|i: int| 0 <= i < size ==> d.root(i) == i,
    {
        let mut parent: Vec<usize> = Vec::new();
        for i in 0..size
            invariant
                parent.len() == i,
                forall|j: int| 0 <= j < i ==> parent@[j] == j,
        {
            parent.push(i);
        }
        let d = Dsu { parent, rank: Ghost(Seq::new(size as nat, |j: int| 0nat)), bound: Ghost(1) };
        assert forall|i: int| 0 <= i < size implies d.root(i) == i by {
            assert(d.parent@[i] == i);
        }
        d
    }

    pub fn size(&self) -> (n: usize)
        ensures
            n == self.len(),
    {
        self.parent.len()
    }

    /// The representative of `i`'s set; links on the way are shortened.
    pub fn find(&mut self, i: usize) -> (r: usize)
        requires
            old(self).wf(),
            i < old(self).len(),
        ensures
            final(self).wf(),
            final(self).len() == old(self).len(),
            r == old(self).root(i as int),
            final(self).link(i as int) == r,
            forall|j: int|
                0 <= j < old(self).len() ==> #[trigger] final(self).link(j) == old(self).link(j)
                    || final(self).link(j) == old(self).root(j),
            forall|j: int| 0 <= j < old(self).len() ==> final(self).root(j) == old(self).root(j),
        decreases old(self).height(i as int),
    {
        proof {
            self.lemma_climb(i as int, self.bound@);
        }
        let p = self.parent[i];
        if p == i {
            return i;
        }
        proof {
            self.lemma_climb(p as int, self.bound@);
            self.lemma_climb(p as int, (self.bound@ - 1) as nat);
        }
        let root = self.find(p);
        proof {
            self.lemma_climb(i as int, self.bound@);
            self.lemma_climb(root as int, self.bound@);
        }
        let ghost mid = *self;
        self.parent.set(i, root);
        proof {
            assert(self.parent@ == mid.parent@.update(i as int, root));
            assert(mid.parent@[i as int] != i) by {
                // i's root is p's root, which differs from i.
                if mid.parent@[i as int] == i {
                    assert(mid.root(i as int) == i);
                }
            }
            mid.lemma_climb(i as int, mid.bound@);
            assert forall|j: int| 0 <= j < self.len() implies self.root(j) == mid.root(j) by {
                Self::lemma_redirect(mid, *self, i as int, root as int, j);
            }
            assert forall|j: int| 0 <= j < self.len() implies #[trigger] self.link(j) == old(
                self,
            ).link(j) || self.link(j) == old(self).root(j) by {
                if j != i {
                    assert(self.parent@[j] == mid.parent@[j]);
                    assert(mid.link(j) == mid.parent@[j] as int);
                }
            }
        }
        root
    }

    /// Pointing `i` straight at its own representative changes no set.
    proof fn lemma_redirect(a: Dsu, b: Dsu, i: int, r: int, j: int)
        requires
            a.wf(),
            b.rank@ == a.rank@,
            b.bound@ == a.bound@,
            0 <= i < a.len(),
            r == a.root(i),
            a.parent@[i] != i,
            b.parent@ == a.parent@.update(i, r as usize),
            0 <= j < a.len(),
        ensures
            b.wf(),
            b.root(j) == a.root(j),
        decreases a.bound@ - a.rank@[j],
    {
        a.lemma_climb(i, a.bound@);
        a.lemma_climb(j, a.bound@);
        assert(b.wf());
        b.lemma_climb(j, b.bound@);
        let pa = a.parent@;
        let pb = b.parent@;
        if j == i {
            a.lemma_climb(r, a.bound@);
            b.lemma_climb(r, (b.bound@ - 1) as nat);
            assert(pb[r] == r);
            assert(climb(pb, r, (b.bound@ - 1) as nat) == r);
            assert(climb(pb, j, b.bound@) == climb(pb, r, (b.bound@ - 1) as nat));
        } else if pa[j] == j {
            assert(climb(pb, j, b.bound@) == j);
        } else {
            let q = pa[j] as int;
            Self::lemma_redirect(a, b, i, r, q);
            a.lemma_climb(q, (a.bound@ - 1) as nat);
            b.lemma_climb(q, (b.bound@ - 1) as nat);
            assert(climb(pa, j, a.bound@) == climb(pa, q, (a.bound@ - 1) as nat));
            assert(climb(pb, j, b.bound@) == climb(pb, q, (b.bound@ - 1) as nat));
        }
    }

    /// Joins the sets of `i` and `j`: the set of `i` takes `j`'s
    /// representative.
    pub fn union(&mut self, i: usize, j: usize)
        requires
            old(self).wf(),
            i < old(self).len(),
            j < old(self).len(),
        ensures
            final(self).wf(),
            final(self).len() == old(self).len(),
            forall|x: int|
                0 <= x < old(self).len() ==> final(self).root(x) == if old(self).root(x)
                    == old(self).root(i as int) {
                    old(self).root(j as int)
                } else {
                    old(self).root(x)
                },
    {
        let ghost s0 = *self;
        let root_i = self.find(i);
        let root_j = self.find(j);
        let ghost s1 = *self;
        proof {
            s1.lemma_root(i as int);
            s1.lemma_root(j as int);
            s0.lemma_root(i as int);
            s0.lemma_root(j as int);
        }
        if root_i != root_j {
            proof {
                s1.lemma_climb(root_i as int, s1.bound@);
                s1.lemma_climb(root_j as int, s1.bound@);
            }
            self.parent.set(root_i, root_j);
            let ghost ri = s1.rank@[root_i as int];
            let ghost rj = s1.rank@[root_j as int];
            let ghost new_rj: nat = if rj > ri {
                rj
            } else {
                ri + 1
            };
            proof {
                self.rank = Ghost(s1.rank@.update(root_j as int, new_rj));
                self.bound = Ghost(
                    if new_rj + 1 > s1.bound@ {
                        new_rj + 1
                    } else {
                        s1.bound@
                    },
                );
                assert(self.parent@ == s1.parent@.update(root_i as int, root_j));
                assert(self.wf()) by {
                    let p = self.parent@;
                    let r = self.rank@;
                    assert forall|x: int| 0 <= x < p.len() && p[x] != x implies r[p[x] as int]
                        > r[x] by {
                        if x != root_i {
                            assert(p[x] == s1.parent@[x]);
                            if x == root_j {
                                assert(s1.parent@[x] == x);
                            }
                        }
                    }
                }
                assert forall|x: int| 0 <= x < s0.len() implies self.root(x) == if s0.root(x)
                    == s0.root(i as int) {
                    s0.root(j as int)
                } else {
                    s0.root(x)
                } by {
                    Self::lemma_link(s1, *self, root_i as int, root_j as int, x);
                }
            }
        }
    }

    /// Linking one representative under another merges exactly their sets.
    proof fn lemma_link(a: Dsu, b: Dsu, ri: int, rj: int, x: int)
        requires
            a.wf(),
            b.wf(),
            0 <= ri < a.len(),
            0 <= rj < a.len(),
            ri != rj,
            a.parent@[ri] == ri,
            a.parent@[rj] == rj,
            b.parent@ == a.parent@.update(ri, rj as usize),
            forall|y: int| 0 <= y < a.len() && y != rj ==> b.rank@[y] == a.rank@[y],
            b.rank@[rj] >= a.rank@[rj],
            b.bound@ >= a.bound@,
            0 <= x < a.len(),
        ensures
            b.root(x) == if a.root(x) == ri {
                rj
            } else {
                a.root(x)
            },
        decreases a.bound@ - a.rank@[x],
    {
        a.lemma_climb(x, a.bound@);
        b.lemma_climb(x, b.bound@);
        let pa = a.parent@;
        let pb = b.parent@;
        if x == ri {
            b.lemma_climb(rj, (b.bound@ - 1) as nat);
            assert(climb(pb, x, b.bound@) == climb(pb, rj, (b.bound@ - 1) as nat));
            assert(climb(pb, rj, (b.bound@ - 1) as nat) == rj);
            assert(climb(pa, x, a.bound@) == x);
        } else if pa[x] == x {
            assert(pb[x] == x);
            assert(climb(pb, x, b.bound@) == x);
            assert(climb(pa, x, a.bound@) == x);
        } else {
            let q = pa[x] as int;
            assert(pb[x] == q);
            Self::lemma_link(a, b, ri, rj, q);
            a.lemma_climb(q, (a.bound@ - 1) as nat);
            b.lemma_climb(q, (b.bound@ - 1) as nat);
            assert(climb(pa, x, a.bound@) == climb(pa, q, (a.bound@ - 1) as nat));
            assert(climb(pb, x, b.bound@) == climb(pb, q, (b.bound@ - 1) as nat));
        }
    }
}

} // verus!

verus! {

// ─── Built-in examples ───────────────────────────────────────────────────────

/// A name in lower case with its spaces as underscores.
pub open spec fn file_stem(name: Seq<char>) -> Seq<char>
    decreases name.len(),
{
    if name.len() == 0 {
        Seq::empty()
    } else {
        let c = crate::text::lower(name.last());
        file_stem(name.drop_last()).push(
            if c == ' ' {
                '_'
            } else {
                c
            },
        )
    }
}

/// An example's name, as a menu shows it.
pub open spec fn label_of(e: Example) -> Seq<char> {
    match e {
        Example::RcCharge => "RC charge"@,
        Example::VoltageDivider => "Voltage divider"@,
        Example::RlCircuit => "RL circuit"@,
        Example::RcLowPass => "RC low-pass (.ac)"@,
    }
}

pub open spec fn file_name_of(name: Seq<char>) -> Seq<char> {
    file_stem(name) + ".cir"@
}

#[derive(Clone, Copy, PartialEq, Eq, Structural, Debug)]
pub enum Example {
    RcCharge,
    VoltageDivider,
    RlCircuit,
    RcLowPass,
}

impl Example {
    /// The example's netlist text.
    pub fn netlist(self) -> (s: &'static str)
        ensures
            s@ == match self {
                Example::RcCharge => "* RC charging\n                V1 1 0 DC 5\n                R1 1 2 1k\n                C1 2 0 1u\n                .tran 10u 5m\n                .end\n                "@,
                Example::VoltageDivider => "* Voltage divider\n                V1 1 0 DC 10\n                R1 1 2 1k\n                R2 2 0 1k\n                .op\n                .end\n                "@,
                Example::RlCircuit => "* RL circuit\n                V1 1 0 DC 12\n                R1 1 2 100\n                L1 2 0 1m\n                .op\n                .tran 1u 1m\n                .end\n                "@,
                Example::RcLowPass => "* RC low-pass filter — frequency sweep\n                * Corner frequency: fc = 1/(2π·R·C) ≈ 1.59 kHz\n                V1 1 0 DC 0\n                R1 1 2 1k\n                C1 2 0 100n\n                .ac dec 200 10 100k\n                .end\n                "@,
            },
    {
        match self {
            Example::RcCharge => "* RC charging\n                V1 1 0 DC 5\n                R1 1 2 1k\n                C1 2 0 1u\n                .tran 10u 5m\n                .end\n                ",
            Example::VoltageDivider => "* Voltage divider\n                V1 1 0 DC 10\n                R1 1 2 1k\n                R2 2 0 1k\n                .op\n                .end\n                ",
            Example::RlCircuit => "* RL circuit\n                V1 1 0 DC 12\n                R1 1 2 100\n                L1 2 0 1m\n                .op\n                .tran 1u 1m\n                .end\n                ",
            Example::RcLowPass => "* RC low-pass filter — frequency sweep\n                * Corner frequency: fc = 1/(2π·R·C) ≈ 1.59 kHz\n                V1 1 0 DC 0\n                R1 1 2 1k\n                C1 2 0 100n\n                .ac dec 200 10 100k\n                .end\n                ",
        }
    }

    /// The file name an example is shown under: its name in lower case,
    /// spaces as underscores, with `.cir`.
    pub fn file_name(self) -> (s: String)
        ensures
            s@ == file_name_of(label_of(self)),
    {
        let l = crate::text::chars_of(self.label());
        let mut out: Vec<char> = Vec::new();
        let mut i: usize = 0;
        while i < l.len()
            invariant
                i <= l.len(),
                out@ == file_stem(l@.take(i as int)),
            decreases l.len() - i,
        {
            let c = crate::text::to_lower(l[i]);
            out.push(if c == ' ' {
                '_'
            } else {
                c
            });
            assert(l@.take(i + 1).drop_last() =~= l@.take(i as int));
            i += 1;
        }
        assert(l@.take(l.len() as int) =~= l@);
        crate::text::string_of(&out).concat(".cir")
    }

    /// The example's name, as a menu shows it.
    pub fn label(self) -> (s: &'static str)
        ensures
            s@ == label_of(self),
    {
        match self {
            Example::RcCharge => "RC charge",
            Example::VoltageDivider => "Voltage divider",
            Example::RlCircuit => "RL circuit",
            Example::RcLowPass => "RC low-pass (.ac)",
        }
    }
}

} // verus!

verus! {

// ─── Schematic model ─────────────────────────────────────────────────────────

/// A point of the drawing grid.
#[derive(Clone, Copy, PartialEq, Eq, Structural, Debug, Hash)]
pub struct GridPt(pub i32, pub i32);

#[derive(Clone, Copy, PartialEq, Eq, Structural, Debug)]
pub enum CompKind {
    Resistor,
    Capacitor,
    Inductor,
    Voltage,
    Ground,
}

/// A component between two grid points, with its value as typed.
pub struct Component {
    pub kind: CompKind,
    pub p1: GridPt,
    pub p2: GridPt,
    pub val: String,
}

pub struct ComponentView {
    pub kind: CompKind,
    pub p1: GridPt,
    pub p2: GridPt,
    pub val: Seq<char>,
}

impl View for Component {
    type V = ComponentView;

    open spec fn view(&self) -> ComponentView {
        ComponentView { kind: self.kind, p1: self.p1, p2: self.p2, val: self.val@ }
    }
}

#[derive(Clone, Copy, PartialEq, Eq, Structural, Debug)]
pub struct Wire {
    pub p1: GridPt,
    pub p2: GridPt,
}

#[derive(Clone, Copy, PartialEq, Eq, Structural, Debug)]
pub enum AnalysisType {
    Tran,
    Ac,
}

/// What a click on the canvas does.
#[derive(Clone, Copy, PartialEq, Eq, Structural, Debug)]
pub enum Tool {
    Select,
    Wire,
    R,
    C,
    L,
    V,
    Gnd,
}

/// What a schematic holds: components, wires and the analysis to run, and
/// the editor's state: the tool, the direction new elements point in, a wire
/// being drawn, the selection and the grid point a drag last reached.
pub struct Schematic {
    pub tool: Tool,
    pub components: Vec<Component>,
    pub wires: Vec<Wire>,
    pub active_wire_start: Option<GridPt>,
    pub current_dir: Direction,
    pub selected_component: Option<usize>,
    pub selected_wire: Option<usize>,
    pub drag_last_grid: Option<GridPt>,
    pub analysis_type: AnalysisType,
    pub tran_step: String,
    pub tran_stop: String,
    pub ac_variation: String,
    pub ac_points: String,
    pub ac_fstart: String,
    pub ac_fstop: String,
}

pub struct SchematicView {
    pub tool: Tool,
    pub components: Seq<ComponentView>,
    pub wires: Seq<Wire>,
    pub active_wire_start: Option<GridPt>,
    pub current_dir: Direction,
    pub selected_component: Option<usize>,
    pub selected_wire: Option<usize>,
    pub drag_last_grid: Option<GridPt>,
    pub analysis_type: AnalysisType,
    pub tran_step: Seq<char>,
    pub tran_stop: Seq<char>,
    pub ac_variation: Seq<char>,
    pub ac_points: Seq<char>,
    pub ac_fstart: Seq<char>,
    pub ac_fstop: Seq<char>,
}

impl View for Schematic {
    type V = SchematicView;

    open spec fn view(&self) -> SchematicView {
        SchematicView {
            tool: self.tool,
            components: self.components@.map_values(|c: Component| c@),
            wires: self.wires@,
            active_wire_start: self.active_wire_start,
            current_dir: self.current_dir,
            selected_component: self.selected_component,
            selected_wire: self.selected_wire,
            drag_last_grid: self.drag_last_grid,
            analysis_type: self.analysis_type,
            tran_step: self.tran_step@,
            tran_stop: self.tran_stop@,
            ac_variation: self.ac_variation@,
            ac_points: self.ac_points@,
            ac_fstart: self.ac_fstart@,
            ac_fstop: self.ac_fstop@,
        }
    }
}

impl Default for Schematic {
    fn default() -> (s: Self)
        ensures
            s@ == (SchematicView {
                tool: Tool::Select,
                components: Seq::empty(),
                wires: Seq::empty(),
                active_wire_start: None,
                current_dir: Direction::Down,
                selected_component: None,
                selected_wire: None,
                drag_last_grid: None,
                analysis_type: AnalysisType::Tran,
                tran_step: "1u"@,
                tran_stop: "5m"@,
                ac_variation: "dec"@,
                ac_points: "20"@,
                ac_fstart: "1"@,
                ac_fstop: "10k"@,
            }),
    {
        let s = Schematic {
            tool: Tool::Select,
            components: Vec::new(),
            wires: Vec::new(),
            active_wire_start: None,
            current_dir: Direction::Down,
            selected_component: None,
            selected_wire: None,
            drag_last_grid: None,
            analysis_type: AnalysisType::Tran,
            tran_step: String::from_str("1u"),
            tran_stop: String::from_str("5m"),
            ac_variation: String::from_str("dec"),
            ac_points: String::from_str("20"),
            ac_fstart: String::from_str("1"),
            ac_fstop: String::from_str("10k"),
        };
        assert(s@.components =~= Seq::<ComponentView>::empty());
        s
    }
}

// ─── Grid points in order ────────────────────────────────────────────────────

/// Row-major order on grid points: by x, then by y.
pub open spec fn pt_lt(a: GridPt, b: GridPt) -> bool {
    a.0 < b.0 || (a.0 == b.0 && a.1 < b.1)
}

fn pt_less(a: GridPt, b: GridPt) -> (r: bool)
    ensures
        r == pt_lt(a, b),
{
    a.0 < b.0 || (a.0 == b.0 && a.1 < b.1)
}

pub open spec fn strictly_sorted(l: Seq<GridPt>) -> bool {
    forall|i: int, j: int| 0 <= i < j < l.len() ==> pt_lt(l[i], l[j])
}

/// `l` lists the points of `e`, each once, in order.
pub open spec fn lists_points(l: Seq<GridPt>, e: Seq<GridPt>) -> bool {
    strictly_sorted(l) && forall|p: GridPt| l.contains(p) <==> e.contains(p)
}

/// The points of `e`, each once, in order.
pub open spec fn point_list(e: Seq<GridPt>) -> Seq<GridPt> {
    choose|l: Seq<GridPt>| lists_points(l, e)
}

/// Every pin of every component, then both ends of every wire.
pub open spec fn endpoints(s: SchematicView) -> Seq<GridPt> {
    Seq::new(2 * s.components.len(), |i: int| if i % 2 == 0 { s.components[i / 2].p1 } else { s.components[i / 2].p2 })
        + Seq::new(2 * s.wires.len(), |i: int| if i % 2 == 0 { s.wires[i / 2].p1 } else { s.wires[i / 2].p2 })
}

proof fn lemma_sorted_unique(a: Seq<GridPt>, b: Seq<GridPt>)
    requires
        strictly_sorted(a),
        strictly_sorted(b),
        forall|p: GridPt| a.contains(p) <==> b.contains(p),
    ensures
        a == b,
    decreases a.len() + b.len(),
{
    if a.len() == 0 {
        if b.len() > 0 {
            assert(b.contains(b[0]));
        }
        assert(a =~= b);
    } else if b.len() == 0 {
        assert(a.contains(a[0]));
    } else {
        // Both start with the least point.
        assert(a.contains(a[0]));
        assert(b.contains(b[0]));
        let ja = choose|j: int| 0 <= j < a.len() && a[j] == b[0];
        let jb = choose|j: int| 0 <= j < b.len() && b[j] == a[0];
        if ja > 0 {
            assert(pt_lt(a[0], a[ja]));
            if jb > 0 {
                assert(pt_lt(b[0], b[jb]));
            }
        }
        if jb > 0 {
            assert(pt_lt(b[0], b[jb]));
        }
        assert(a[0] == b[0]);
        let a2 = a.drop_first();
        let b2 = b.drop_first();
        assert forall|p: GridPt| a2.contains(p) <==> b2.contains(p) by {
            if a2.contains(p) {
                let k = choose|k: int| 0 <= k < a2.len() && a2[k] == p;
                assert(pt_lt(a[0], a[k + 1]));
                assert(a.contains(p));
                let m = choose|m: int| 0 <= m < b.len() && b[m] == p;
                assert(m != 0);
                assert(b2[m - 1] == p);
            }
            if b2.contains(p) {
                let k = choose|k: int| 0 <= k < b2.len() && b2[k] == p;
                assert(pt_lt(b[0], b[k + 1]));
                assert(b.contains(p));
                let m = choose|m: int| 0 <= m < a.len() && a[m] == p;
                assert(m != 0);
                assert(a2[m - 1] == p);
            }
        }
        lemma_sorted_unique(a2, b2);
        assert(a =~= seq![a[0]] + a2);
        assert(b =~= seq![b[0]] + b2);
    }
}

/// Adds `p` to a sorted list of distinct points, unless it is there.
#[verifier::spinoff_prover]
fn insert_point(l: &mut Vec<GridPt>, p: GridPt)
    requires
        strictly_sorted(old(l)@),
    ensures
        strictly_sorted(final(l)@),
        forall|q: GridPt| final(l)@.contains(q) <==> (old(l)@.contains(q) || q == p),
        final(l).len() <= old(l).len() + 1,
{
    let mut i: usize = 0;
    while i < l.len() && pt_less(l[i], p)
        invariant
            i <= l.len(),
            forall|j: int| 0 <= j < i ==> pt_lt(l@[j], p),
        decreases l.len() - i,
    {
        i += 1;
    }
    if i < l.len() && l[i] == p {
        return;
    }
    let ghost before = l@;
    l.insert(i, p);
    proof {
        assert(l@ =~= before.take(i as int).push(p) + before.skip(i as int));
        assert forall|a: int, b: int| 0 <= a < b < l@.len() implies pt_lt(l@[a], l@[b]) by {
            if b < i {
            } else if b == i {
                assert(l@[a] == before[a]);
            } else if a < i {
                assert(l@[b] == before[b - 1]);
                if b - 1 > i {
                    assert(pt_lt(before[i as int], before[b - 1]));
                }
                // before[b-1] is at or after position i, so not below p
                assert(!pt_lt(before[i as int], p));
            } else if a == i {
                assert(l@[b] == before[b - 1]);
                assert(!pt_lt(before[i as int], p));
                assert(before[i as int] != p);
                if b - 1 > i {
                    assert(pt_lt(before[i as int], before[b - 1]));
                }
            } else {
                assert(l@[a] == before[a - 1]);
                assert(l@[b] == before[b - 1]);
            }
        }
        assert forall|q: GridPt| l@.contains(q) <==> (before.contains(q) || q == p) by {
            if l@.contains(q) {
                let k = choose|k: int| 0 <= k < l@.len() && l@[k] == q;
                if k < i {
                    assert(before[k] == q);
                } else if k > i {
                    assert(before[k - 1] == q);
                }
            }
            if before.contains(q) {
                let k = choose|k: int| 0 <= k < before.len() && before[k] == q;
                if k < i {
                    assert(l@[k] == q);
                } else {
                    assert(l@[k + 1] == q);
                }
            }
            if q == p {
                assert(l@[i as int] == p);
            }
        }
    }
}

proof fn lemma_contains_push<T>(s: Seq<T>, x: T)
    ensures
        forall|q: T| s.push(x).contains(q) <==> (s.contains(q) || q == x),
{
    assert forall|q: T| s.push(x).contains(q) <==> (s.contains(q) || q == x) by {
        if s.push(x).contains(q) {
            let k = choose|k: int| 0 <= k < s.push(x).len() && s.push(x)[k] == q;
            if k < s.len() {
                assert(s[k] == q);
            }
        }
        if s.contains(q) {
            let k = choose|k: int| 0 <= k < s.len() && s[k] == q;
            assert(s.push(x)[k] == q);
        }
        if q == x {
            assert(s.push(x)[s.len() as int] == q);
        }
    }
}

proof fn lemma_take_two(e: Seq<GridPt>, m: int)
    requires
        0 <= m,
        m + 2 <= e.len(),
    ensures
        forall|q: GridPt|
            e.take(m + 2).contains(q) <==> (e.take(m).contains(q) || q == e[m] || q == e[m + 1]),
{
    assert(e.take(m + 2) =~= e.take(m).push(e[m]).push(e[m + 1]));
    lemma_contains_push(e.take(m), e[m]);
    lemma_contains_push(e.take(m).push(e[m]), e[m + 1]);
}

/// The sorted list of the schematic's distinct endpoints.
fn sorted_points(s: &Schematic) -> (l: Vec<GridPt>)
    ensures
        lists_points(l@, endpoints(s@)),
        l@ == point_list(endpoints(s@)),
{
    let ghost e = endpoints(s@);
    let ghost nc = s.components.len();
    let mut l: Vec<GridPt> = Vec::new();
    let mut k: usize = 0;
    while k < s.components.len()
        invariant
            e == endpoints(s@),
            nc == s.components.len(),
            k <= nc,
            strictly_sorted(l@),
            forall|q: GridPt| l@.contains(q) <==> e.take(2 * k).contains(q),
        decreases nc - k,
    {
        let ghost l0 = l@;
        insert_point(&mut l, s.components[k].p1);
        let ghost l1 = l@;
        insert_point(&mut l, s.components[k].p2);
        proof {
            assert(s@.components[k as int] == s.components@[k as int]@);
            assert(e[2 * k] == s.components@[k as int].p1);
            assert(e[2 * k + 1] == s.components@[k as int].p2);
            lemma_take_two(e, 2 * k);
            assert forall|q: GridPt| l@.contains(q) <==> e.take(2 * k + 2).contains(q) by {
                assert(l@.contains(q) <==> (l1.contains(q) || q == e[2 * k + 1]));
                assert(l1.contains(q) <==> (l0.contains(q) || q == e[2 * k]));
                assert(l0.contains(q) <==> e.take(2 * k).contains(q));
            }
        }
        k += 1;
    }
    let mut k: usize = 0;
    while k < s.wires.len()
        invariant
            e == endpoints(s@),
            nc == s.components.len(),
            k <= s.wires.len(),
            strictly_sorted(l@),
            forall|q: GridPt| l@.contains(q) <==> e.take(2 * nc + 2 * k).contains(q),
        decreases s.wires.len() - k,
    {
        let ghost l0 = l@;
        insert_point(&mut l, s.wires[k].p1);
        let ghost l1 = l@;
        insert_point(&mut l, s.wires[k].p2);
        proof {
            let m = 2 * nc + 2 * k;
            assert(e[m] == s.wires@[k as int].p1);
            assert(e[m + 1] == s.wires@[k as int].p2);
            lemma_take_two(e, m);
            assert forall|q: GridPt| l@.contains(q) <==> e.take(m + 2).contains(q) by {
                assert(l@.contains(q) <==> (l1.contains(q) || q == e[m + 1]));
                assert(l1.contains(q) <==> (l0.contains(q) || q == e[m]));
                assert(l0.contains(q) <==> e.take(m).contains(q));
            }
        }
        k += 1;
    }
    proof {
        assert(e.take(e.len() as int) =~= e);
        assert(lists_points(l@, e));
        let c = choose|c: Seq<GridPt>| lists_points(c, e);
        lemma_sorted_unique(l@, c);
    }
    l
}

/// Where `p` stands in a sorted list that holds it.
fn index_of(l: &Vec<GridPt>, p: GridPt) -> (i: usize)
    requires
        l@.contains(p),
    ensures
        i < l.len(),
        l@[i as int] == p,
{
    let mut i: usize = 0;
    while i < l.len()
        invariant
            i <= l.len(),
            l@.contains(p),
            forall|j: int| 0 <= j < i ==> l@[j] != p,
        decreases l.len() - i,
    {
        if l[i] == p {
            return i;
        }
        i += 1;
    }
    i
}

} // verus!

verus! {

// ─── Nets ────────────────────────────────────────────────────────────────────

/// Whether the first `k` wires join `a` and `b` (directly or through other
/// points).
pub open spec fn linked(w: Seq<Wire>, k: nat, a: GridPt, b: GridPt) -> bool
    decreases k,
{
    if k == 0 {
        a == b
    } else {
        let j = (k - 1) as nat;
        let u = w[j as int].p1;
        let v = w[j as int].p2;
        linked(w, j, a, b) || (linked(w, j, a, u) && linked(w, j, v, b)) || (linked(w, j, a, v)
            && linked(w, j, u, b))
    }
}

/// `a` and `b` are wired together.
pub open spec fn same_net(s: SchematicView, a: GridPt, b: GridPt) -> bool {
    linked(s.wires, s.wires.len(), a, b)
}

/// `d` groups the points of `l` exactly as the wires do.
pub open spec fn nets_match(d: Dsu, s: SchematicView, l: Seq<GridPt>) -> bool {
    &&& d.wf()
    &&& d.len() == l.len()
    &&& groups_as(d, s.wires, s.wires.len(), l)
}

/// `d` groups the points of `l` as the first `k` wires do.
pub open spec fn groups_as(d: Dsu, w: Seq<Wire>, k: nat, l: Seq<GridPt>) -> bool {
    forall|a: int, b: int|
        #![trigger d.root(a), d.root(b)]
        0 <= a < l.len() && 0 <= b < l.len() ==> (d.root(a) == d.root(b) <==> linked(
            w,
            k,
            l[a],
            l[b],
        ))
}

/// Joining the sets of a wire's two ends adds that wire to the grouping.
proof fn lemma_union_wire(
    d0: Dsu,
    d: Dsu,
    w: Seq<Wire>,
    l: Seq<GridPt>,
    k: nat,
    iu: int,
    iv: int,
)
    requires
        d0.wf(),
        d0.len() == l.len(),
        k < w.len(),
        0 <= iu < l.len(),
        0 <= iv < l.len(),
        l[iu] == w[k as int].p1,
        l[iv] == w[k as int].p2,
        groups_as(d0, w, k, l),
        forall|x: int|
            0 <= x < l.len() ==> #[trigger] d.root(x) == if d0.root(x) == d0.root(iu) {
                d0.root(iv)
            } else {
                d0.root(x)
            },
    ensures
        groups_as(d, w, k + 1, l),
{
    assert forall|a: int, b: int|
        #![trigger d.root(a), d.root(b)]
        0 <= a < l.len() && 0 <= b < l.len() implies (d.root(a) == d.root(b) <==> linked(
            w,
            k + 1,
            l[a],
            l[b],
        )) by {
        assert(d0.root(a) == d0.root(iu) <==> linked(w, k, l[a], l[iu]));
        assert(d0.root(iv) == d0.root(b) <==> linked(w, k, l[iv], l[b]));
        assert(d0.root(a) == d0.root(iv) <==> linked(w, k, l[a], l[iv]));
        assert(d0.root(iu) == d0.root(b) <==> linked(w, k, l[iu], l[b]));
        assert(d0.root(a) == d0.root(b) <==> linked(w, k, l[a], l[b]));
        assert(d.root(a) == if d0.root(a) == d0.root(iu) { d0.root(iv) } else { d0.root(a) });
        assert(d.root(b) == if d0.root(b) == d0.root(iu) { d0.root(iv) } else { d0.root(b) });
    }
}

/// Unions the ends of every wire.
fn build_nets(s: &Schematic, l: &Vec<GridPt>) -> (d: Dsu)
    requires
        lists_points(l@, endpoints(s@)),
    ensures
        nets_match(d, s@, l@),
{
    let ghost w = s@.wires;
    let n = l.len();
    let mut d = Dsu::new(n);
    proof {
        assert forall|a: int, b: int|
            #![trigger d.root(a), d.root(b)]
            0 <= a < n && 0 <= b < n implies (d.root(a) == d.root(b) <==> linked(
                w,
                0,
                l@[a],
                l@[b],
            )) by {
            assert(d.root(a) == a);
            assert(d.root(b) == b);
            if a < b {
                assert(pt_lt(l@[a], l@[b]));
            } else if b < a {
                assert(pt_lt(l@[b], l@[a]));
            }
        }
    }
    let mut k: usize = 0;
    while k < s.wires.len()
        invariant
            w == s@.wires,
            n == l.len(),
            k <= w.len(),
            lists_points(l@, endpoints(s@)),
            d.wf(),
            d.len() == n,
            groups_as(d, w, k as nat, l@),
        decreases w.len() - k,
    {
        let wire = s.wires[k];
        proof {
            let e = endpoints(s@);
            let nc = s@.components.len();
            assert(e[2 * nc + 2 * k] == wire.p1);
            assert(e[2 * nc + 2 * k + 1] == wire.p2);
            assert(e.contains(wire.p1));
            assert(e.contains(wire.p2));
        }
        let iu = index_of(l, wire.p1);
        let iv = index_of(l, wire.p2);
        let ghost d0 = d;
        d.union(iu, iv);
        proof {
            lemma_union_wire(d0, d, w, l@, k as nat, iu as int, iv as int);
        }
        k += 1;
    }
    d
}

// ─── Node numbers ────────────────────────────────────────────────────────────

/// Whether the net of `p` holds the pin of a ground symbol.
pub open spec fn grounded(s: SchematicView, p: GridPt) -> bool {
    exists|g: int|
        0 <= g < s.components.len() && s.components[g].kind == CompKind::Ground && same_net(
            s,
            p,
            s.components[g].p1,
        )
}

/// `l[j]` is the first point of its net in `l`.
pub open spec fn opens_net(s: SchematicView, l: Seq<GridPt>, j: int) -> bool {
    forall|k: int| 0 <= k < j ==> !same_net(s, l[k], l[j])
}

/// How many nets not tied to ground open among `l[..m]`.
pub open spec fn nets_before(s: SchematicView, l: Seq<GridPt>, m: int) -> nat
    decreases m,
{
    if m <= 0 {
        0
    } else {
        nets_before(s, l, m - 1) + if opens_net(s, l, m - 1) && !grounded(s, l[m - 1]) {
            1nat
        } else {
            0nat
        }
    }
}

/// The first index from `j` on whose point shares `l[i]`'s net.
pub open spec fn first_from(s: SchematicView, l: Seq<GridPt>, j: int, i: int) -> int
    decreases i - j,
{
    if j >= i {
        i
    } else if same_net(s, l[j], l[i]) {
        j
    } else {
        first_from(s, l, j + 1, i)
    }
}

/// The SPICE node of `l[i]`: 0 on a grounded net; otherwise nets are numbered
/// from 1 in the order of their first point.
pub open spec fn node_number(s: SchematicView, l: Seq<GridPt>, i: int) -> nat {
    if grounded(s, l[i]) {
        0
    } else {
        nets_before(s, l, first_from(s, l, 0, i)) + 1
    }
}

proof fn lemma_first_from(d: Dsu, s: SchematicView, l: Seq<GridPt>, j: int, i: int)
    requires
        nets_match(d, s, l),
        0 <= j <= i < l.len(),
    ensures
        j <= first_from(s, l, j, i) <= i,
        d.root(first_from(s, l, j, i)) == d.root(i),
        forall|k: int| j <= k < first_from(s, l, j, i) ==> d.root(k) != d.root(i),
    decreases i - j,
{
    if j < i && !same_net(s, l[j], l[i]) {
        lemma_first_from(d, s, l, j + 1, i);
    }
}

/// Points of one net have the same number.
proof fn lemma_number_same_net(d: Dsu, s: SchematicView, l: Seq<GridPt>, i: int, i2: int)
    requires
        nets_match(d, s, l),
        lists_points(l, endpoints(s)),
        0 <= i < l.len(),
        0 <= i2 < l.len(),
        d.root(i) == d.root(i2),
    ensures
        first_from(s, l, 0, i) == first_from(s, l, 0, i2),
        grounded(s, l[i]) == grounded(s, l[i2]),
        node_number(s, l, i) == node_number(s, l, i2),
{
    lemma_first_from(d, s, l, 0, i);
    lemma_first_from(d, s, l, 0, i2);
    let f1 = first_from(s, l, 0, i);
    let f2 = first_from(s, l, 0, i2);
    if f1 < f2 {
        assert(d.root(f1) != d.root(i2));
    }
    if f2 < f1 {
        assert(d.root(f2) != d.root(i));
    }
    lemma_grounded_same_net(d, s, l, i, i2);
}

proof fn lemma_grounded_same_net(d: Dsu, s: SchematicView, l: Seq<GridPt>, i: int, i2: int)
    requires
        nets_match(d, s, l),
        lists_points(l, endpoints(s)),
        0 <= i < l.len(),
        0 <= i2 < l.len(),
        d.root(i) == d.root(i2),
    ensures
        grounded(s, l[i]) == grounded(s, l[i2]),
{
    if grounded(s, l[i]) {
        let g = choose|g: int|
            0 <= g < s.components.len() && s.components[g].kind == CompKind::Ground && same_net(
                s,
                l[i],
                s.components[g].p1,
            );
        let q = lemma_pin_index(s, l, g);
        assert(d.root(i) == d.root(q));
        assert(d.root(i2) == d.root(q));
        assert(same_net(s, l[i2], s.components[g].p1));
    }
    if grounded(s, l[i2]) {
        let g = choose|g: int|
            0 <= g < s.components.len() && s.components[g].kind == CompKind::Ground && same_net(
                s,
                l[i2],
                s.components[g].p1,
            );
        let q = lemma_pin_index(s, l, g);
        assert(d.root(i2) == d.root(q));
        assert(d.root(i) == d.root(q));
        assert(same_net(s, l[i], s.components[g].p1));
    }
}

/// A component's first pin is in the point list.
proof fn lemma_pin_index(s: SchematicView, l: Seq<GridPt>, g: int) -> (q: int)
    requires
        lists_points(l, endpoints(s)),
        0 <= g < s.components.len(),
    ensures
        0 <= q < l.len(),
        l[q] == s.components[g].p1,
{
    let e = endpoints(s);
    assert(e[2 * g] == s.components[g].p1);
    assert(e.contains(s.components[g].p1));
    choose|q: int| 0 <= q < l.len() && l[q] == s.components[g].p1
}

proof fn lemma_pin2_index(s: SchematicView, l: Seq<GridPt>, g: int) -> (q: int)
    requires
        lists_points(l, endpoints(s)),
        0 <= g < s.components.len(),
    ensures
        0 <= q < l.len(),
        l[q] == s.components[g].p2,
{
    let e = endpoints(s);
    assert(e[2 * g + 1] == s.components[g].p2);
    assert(e.contains(s.components[g].p2));
    choose|q: int| 0 <= q < l.len() && l[q] == s.components[g].p2
}

} // verus!

verus! {

// ─── Node numbering ──────────────────────────────────────────────────────────

/// Where `p` stands in `l`.
pub open spec fn pt_index(l: Seq<GridPt>, p: GridPt) -> int {
    choose|i: int| 0 <= i < l.len() && l[i] == p
}

proof fn lemma_pt_index(l: Seq<GridPt>, p: GridPt)
    requires
        strictly_sorted(l),
        l.contains(p),
    ensures
        0 <= pt_index(l, p) < l.len(),
        l[pt_index(l, p)] == p,
        forall|i: int| 0 <= i < l.len() && l[i] == p ==> i == pt_index(l, p),
{
    let j = pt_index(l, p);
    assert forall|i: int| 0 <= i < l.len() && l[i] == p implies i == j by {
        if i < j {
            assert(pt_lt(l[i], l[j]));
        } else if j < i {
            assert(pt_lt(l[j], l[i]));
        }
    }
}

/// A point of the list, found by a scan, is at `pt_index`.
fn locate(l: &Vec<GridPt>, p: GridPt) -> (i: usize)
    requires
        strictly_sorted(l@),
        l@.contains(p),
    ensures
        i == pt_index(l@, p),
        0 <= i < l.len(),
        l@[i as int] == p,
{
    let i = index_of(l, p);
    proof {
        lemma_pt_index(l@, p);
    }
    i
}

/// The index in `l` of the first pin of component `h`.
pub open spec fn pin1_index(s: SchematicView, l: Seq<GridPt>, h: int) -> int {
    pt_index(l, s.components[h].p1)
}

/// Whether `x` is the representative of a ground symbol's net among the first
/// `g` components.
pub open spec fn ground_root(d: Dsu, s: SchematicView, l: Seq<GridPt>, g: int, x: int) -> bool {
    exists|h: int|
        0 <= h < g && #[trigger] s.components[h].kind == CompKind::Ground && d.root(
            pin1_index(s, l, h),
        ) == x
}

/// A net is grounded exactly when its representative is a ground symbol's.
proof fn lemma_grounded_root(d: Dsu, s: SchematicView, l: Seq<GridPt>, i: int)
    requires
        nets_match(d, s, l),
        lists_points(l, endpoints(s)),
        0 <= i < l.len(),
    ensures
        grounded(s, l[i]) <==> ground_root(d, s, l, s.components.len() as int, d.root(i)),
{
    if grounded(s, l[i]) {
        let g = choose|g: int|
            0 <= g < s.components.len() && s.components[g].kind == CompKind::Ground && same_net(
                s,
                l[i],
                s.components[g].p1,
            );
        lemma_pin_index(s, l, g);
        lemma_pt_index(l, s.components[g].p1);
        let q = pin1_index(s, l, g);
        assert(d.root(i) == d.root(q) <==> same_net(s, l[i], l[q]));
        assert(ground_root(d, s, l, s.components.len() as int, d.root(i)));
    }
    if ground_root(d, s, l, s.components.len() as int, d.root(i)) {
        let h = choose|h: int|
            0 <= h < s.components.len() && #[trigger] s.components[h].kind == CompKind::Ground
                && d.root(pin1_index(s, l, h)) == d.root(i);
        lemma_pin_index(s, l, h);
        lemma_pt_index(l, s.components[h].p1);
        let q = pin1_index(s, l, h);
        assert(d.root(i) == d.root(q) <==> same_net(s, l[i], l[q]));
        assert(grounded(s, l[i]));
    }
}

/// Marks the representative of every ground symbol's net.
fn ground_marks(s: &Schematic, l: &Vec<GridPt>, d: &mut Dsu) -> (marks: Vec<bool>)
    requires
        lists_points(l@, endpoints(s@)),
        nets_match(*old(d), s@, l@),
    ensures
        final(d).wf(),
        final(d).len() == old(d).len(),
        forall|j: int| 0 <= j < l.len() ==> final(d).root(j) == old(d).root(j),
        marks.len() == l.len(),
        forall|x: int|
            0 <= x < l.len() ==> (marks@[x] <==> ground_root(
                *old(d),
                s@,
                l@,
                s@.components.len() as int,
                x,
            )),
{
    let ghost d0 = *d;
    let n = l.len();
    let mut marks: Vec<bool> = Vec::new();
    while marks.len() < n
        invariant
            marks.len() <= n,
            forall|x: int| 0 <= x < marks.len() ==> !marks@[x],
        decreases n - marks.len(),
    {
        marks.push(false);
    }
    let mut g: usize = 0;
    while g < s.components.len()
        invariant
            n == l.len(),
            lists_points(l@, endpoints(s@)),
            nets_match(d0, s@, l@),
            g <= s.components.len(),
            d.wf(),
            d.len() == n,
            forall|j: int| 0 <= j < n ==> d.root(j) == d0.root(j),
            marks.len() == n,
            forall|x: int| 0 <= x < n ==> (marks@[x] <==> ground_root(d0, s@, l@, g as int, x)),
        decreases s.components.len() - g,
    {
        let ghost old_marks = marks@;
        proof {
            assert(s@.components[g as int] == s.components@[g as int]@);
        }
        if s.components[g].kind == CompKind::Ground {
            proof {
                lemma_pin_index(s@, l@, g as int);
            }
            let q = locate(l, s.components[g].p1);
            proof {
                d.lemma_root(q as int);
            }
            let r = d.find(q);
            marks.set(r, true);
            proof {
                assert forall|x: int| 0 <= x < n implies (marks@[x] <==> ground_root(
                    d0,
                    s@,
                    l@,
                    g + 1,
                    x,
                )) by {
                    if x == r {
                        assert(s@.components[g as int].kind == CompKind::Ground);
                        assert(d0.root(pin1_index(s@, l@, g as int)) == x);
                    }
                    if ground_root(d0, s@, l@, g + 1, x) && x != r {
                        let h = choose|h: int|
                            0 <= h < g + 1 && #[trigger] s@.components[h].kind == CompKind::Ground
                                && d0.root(pin1_index(s@, l@, h)) == x;
                        assert(h < g);
                        assert(ground_root(d0, s@, l@, g as int, x));
                    }
                    if ground_root(d0, s@, l@, g as int, x) {
                        let h = choose|h: int|
                            0 <= h < g && #[trigger] s@.components[h].kind == CompKind::Ground
                                && d0.root(pin1_index(s@, l@, h)) == x;
                        assert(0 <= h < g + 1);
                    }
                }
            }
        } else {
            proof {
                assert forall|x: int| 0 <= x < n implies (marks@[x] <==> ground_root(
                    d0,
                    s@,
                    l@,
                    g + 1,
                    x,
                )) by {
                    if ground_root(d0, s@, l@, g + 1, x) {
                        let h = choose|h: int|
                            0 <= h < g + 1 && #[trigger] s@.components[h].kind == CompKind::Ground
                                && d0.root(pin1_index(s@, l@, h)) == x;
                        assert(h < g);
                        assert(ground_root(d0, s@, l@, g as int, x));
                    }
                    if ground_root(d0, s@, l@, g as int, x) {
                        let h = choose|h: int|
                            0 <= h < g && #[trigger] s@.components[h].kind == CompKind::Ground
                                && d0.root(pin1_index(s@, l@, h)) == x;
                        assert(0 <= h < g + 1);
                    }
                }
            }
        }
        g += 1;
    }
    marks
}


/// Among `l[..i]`, no point shares the net of `l[i]`: then `l[i]` opens it.
proof fn lemma_opens(d: Dsu, s: SchematicView, l: Seq<GridPt>, i: int)
    requires
        nets_match(d, s, l),
        0 <= i < l.len(),
        forall|k: int| 0 <= k < i ==> d.root(k) != d.root(i),
    ensures
        opens_net(s, l, i),
        first_from(s, l, 0, i) == i,
        nets_before(s, l, i + 1) == nets_before(s, l, i) + if grounded(s, l[i]) {
            0nat
        } else {
            1nat
        },
{
    assert forall|k: int| 0 <= k < i implies !same_net(s, l[k], l[i]) by {
        assert(d.root(k) == d.root(i) <==> same_net(s, l[k], l[i]));
    }
    lemma_first_from(d, s, l, 0, i);
}

/// Some earlier point shares the net of `l[i]`: `l[i]` opens nothing.
proof fn lemma_not_opens(d: Dsu, s: SchematicView, l: Seq<GridPt>, i: int, j: int)
    requires
        nets_match(d, s, l),
        0 <= j < i < l.len(),
        d.root(j) == d.root(i),
    ensures
        nets_before(s, l, i + 1) == nets_before(s, l, i),
{
    assert(d.root(j) == d.root(i) <==> same_net(s, l[j], l[i]));
    assert(!opens_net(s, l, i));
}

/// The SPICE node of every point of `l`.
fn node_numbers(s: &Schematic, l: &Vec<GridPt>, d: &mut Dsu) -> (nums: Vec<usize>)
    requires
        lists_points(l@, endpoints(s@)),
        nets_match(*old(d), s@, l@),
    ensures
        nums.len() == l.len(),
        forall|i: int| 0 <= i < l.len() ==> nums@[i] == node_number(s@, l@, i),
{
    let ghost d0 = *d;
    let n = l.len();
    let marks = ground_marks(s, l, d);
    let mut num: Vec<usize> = Vec::new();
    let mut assigned: Vec<bool> = Vec::new();
    while num.len() < n
        invariant
            num.len() <= n,
            assigned.len() == num.len(),
            forall|x: int| 0 <= x < assigned.len() ==> !assigned@[x],
        decreases n - num.len(),
    {
        num.push(0);
        assigned.push(false);
    }
    let mut nums: Vec<usize> = Vec::new();
    let mut count: usize = 0;
    let mut i: usize = 0;
    while i < n
        invariant
            n == l.len(),
            lists_points(l@, endpoints(s@)),
            nets_match(d0, s@, l@),
            i <= n,
            d.wf(),
            d.len() == n,
            forall|j: int| 0 <= j < n ==> d.root(j) == d0.root(j),
            marks.len() == n,
            forall|x: int|
                0 <= x < n ==> (marks@[x] <==> ground_root(
                    d0,
                    s@,
                    l@,
                    s@.components.len() as int,
                    x,
                )),
            num.len() == n,
            assigned.len() == n,
            count == nets_before(s@, l@, i as int),
            count <= i,
            nums.len() == i,
            forall|j: int| 0 <= j < i ==> nums@[j] == node_number(s@, l@, j),
            forall|x: int|
                0 <= x < n ==> (assigned@[x] <==> exists|j: int|
                    0 <= j < i && #[trigger] d0.root(j) == x),
            forall|j: int| 0 <= j < i ==> num@[d0.root(j)] == node_number(s@, l@, j),
        decreases n - i,
    {
        proof {
            d0.lemma_root(i as int);
            lemma_grounded_root(d0, s@, l@, i as int);
        }
        let r = d.find(i);
        if !assigned[r] {
            proof {
                assert forall|k: int| 0 <= k < i implies d0.root(k) != d0.root(i as int) by {
                    if d0.root(k) == d0.root(i as int) {
                        assert(exists|j: int| 0 <= j < i && #[trigger] d0.root(j) == r);
                    }
                }
                lemma_opens(d0, s@, l@, i as int);
            }
            let v: usize = if marks[r] {
                0
            } else {
                count + 1
            };
            let ghost num0 = num@;
            num.set(r, v);
            assigned.set(r, true);
            if !marks[r] {
                count += 1;
            }
            proof {
                assert forall|j: int| 0 <= j < i + 1 implies num@[d0.root(j)] == node_number(
                    s@,
                    l@,
                    j,
                ) by {
                    if j < i {
                        d0.lemma_root(j);
                        if d0.root(j) == r {
                            assert(exists|jj: int| 0 <= jj < i && #[trigger] d0.root(jj) == r);
                        }
                        assert(num@[d0.root(j)] == num0[d0.root(j)]);
                    }
                }
                assert forall|x: int| 0 <= x < n implies (assigned@[x] <==> exists|j: int|
                    0 <= j < i + 1 && #[trigger] d0.root(j) == x) by {
                    if x == r {
                        assert(d0.root(i as int) == x);
                    } else {
                        if exists|j: int| 0 <= j < i + 1 && #[trigger] d0.root(j) == x {
                            let j = choose|j: int| 0 <= j < i + 1 && #[trigger] d0.root(j) == x;
                            assert(j < i);
                        }
                    }
                }
            }
        } else {
            proof {
                let j = choose|j: int| 0 <= j < i && #[trigger] d0.root(j) == r;
                lemma_not_opens(d0, s@, l@, i as int, j);
                lemma_number_same_net(d0, s@, l@, j, i as int);
                assert forall|x: int| 0 <= x < n implies (assigned@[x] <==> exists|jj: int|
                    0 <= jj < i + 1 && #[trigger] d0.root(jj) == x) by {
                    if exists|jj: int| 0 <= jj < i + 1 && #[trigger] d0.root(jj) == x {
                        let jj = choose|jj: int| 0 <= jj < i + 1 && #[trigger] d0.root(jj) == x;
                        if jj == i {
                            assert(d0.root(j) == x);
                        }
                    }
                }
            }
        }
        nums.push(num[r]);
        i += 1;
    }
    nums
}
} // verus!

verus! {

// ─── Schematic to netlist ────────────────────────────────────────────────────

/// The SPICE node of grid point `p`.
#[verifier::opaque]
pub open spec fn pin_node(s: SchematicView, p: GridPt) -> nat {
    let l = point_list(endpoints(s));
    node_number(s, l, pt_index(l, p))
}

/// How many of the first `k` components are of kind `kind`.
pub open spec fn kind_count(cs: Seq<ComponentView>, k: int, kind: CompKind) -> nat
    decreases k,
{
    if k <= 0 {
        0
    } else {
        kind_count(cs, k - 1, kind) + if cs[k - 1].kind == kind {
            1nat
        } else {
            0nat
        }
    }
}

/// The letter that starts an element's name.
pub open spec fn kind_letter(kind: CompKind) -> char {
    match kind {
        CompKind::Resistor => 'R',
        CompKind::Capacitor => 'C',
        CompKind::Inductor => 'L',
        CompKind::Voltage => 'V',
        CompKind::Ground => 'G',
    }
}

/// An element line: its name (a letter and a number), two nodes and a value.
#[verifier::opaque]
pub open spec fn line_text(letter: char, number: nat, n1: nat, n2: nat, val: Seq<char>) -> Seq<
    char,
> {
    seq![letter] + dec(number) + " "@ + dec(n1) + " "@ + dec(n2) + " "@ + val + "\n"@
}

/// The netlist line of component `k` (none for a ground symbol): its name,
/// numbered within its kind from 1, its two nodes and its value.
pub open spec fn component_line(s: SchematicView, k: int) -> Seq<char> {
    let c = s.components[k];
    if c.kind == CompKind::Ground {
        Seq::empty()
    } else {
        line_text(
            kind_letter(c.kind),
            kind_count(s.components, k, c.kind) + 1,
            pin_node(s, c.p1),
            pin_node(s, c.p2),
            c.val,
        )
    }
}

/// The lines of the first `m` components.
pub open spec fn component_lines(s: SchematicView, m: int) -> Seq<char>
    decreases m,
{
    if m <= 0 {
        Seq::empty()
    } else {
        component_lines(s, m - 1) + component_line(s, m - 1)
    }
}

/// The analysis card that the schematic's settings ask for.
pub open spec fn analysis_line(s: SchematicView) -> Seq<char> {
    match s.analysis_type {
        AnalysisType::Tran => ".tran "@ + s.tran_step + " "@ + s.tran_stop + "\n"@,
        AnalysisType::Ac => ".ac "@ + s.ac_variation + " "@ + s.ac_points + " "@ + s.ac_fstart
            + " "@ + s.ac_fstop + "\n"@,
    }
}

/// The netlist of a schematic: a title, one line per element, an operating
/// point, the chosen analysis and `.end`.
pub open spec fn netlist_text(s: SchematicView) -> Seq<char> {
    "* Auto-generated from Schematic\n"@ + component_lines(s, s.components.len() as int)
        + ".op\n"@ + analysis_line(s) + ".end\n"@
}

fn push_number(out: &mut String, n: usize)
    ensures
        final(out)@ == old(out)@ + dec(n as nat),
{
    let mut digits: Vec<char> = Vec::new();
    push_decimal(&mut digits, n);
    assert(digits@ =~= dec(n as nat));
    out.append(string_of(&digits).as_str());
}

/// Appends one element line: name, two nodes and value.
fn write_line(out: &mut String, letter: char, index: usize, n1: usize, n2: usize, val: &String)
    requires
        index < usize::MAX,
    ensures
        final(out)@ == old(out)@ + line_text(letter, (index + 1) as nat, n1 as nat, n2 as nat, val@),
{
    reveal(line_text);
    out.push(letter);
    push_number(out, index + 1);
    out.append(" ");
    push_number(out, n1);
    out.append(" ");
    push_number(out, n2);
    out.append(" ");
    out.append(val.as_str());
    out.append("\n");
    assert(out@ =~= old(out)@ + seq![letter] + dec((index + 1) as nat) + " "@ + dec(n1 as nat)
        + " "@ + dec(n2 as nat) + " "@ + val@ + "\n"@);
}

proof fn lemma_component_line(
    s: SchematicView,
    k: int,
    letter: char,
    count: nat,
    n1: nat,
    n2: nat,
)
    requires
        0 <= k < s.components.len(),
        s.components[k].kind != CompKind::Ground,
        letter == kind_letter(s.components[k].kind),
        count == kind_count(s.components, k, s.components[k].kind),
        n1 == pin_node(s, s.components[k].p1),
        n2 == pin_node(s, s.components[k].p2),
    ensures
        component_line(s, k) == line_text(letter, count + 1, n1, n2, s.components[k].val),
{
}

proof fn lemma_component_lines_step(s: SchematicView, k: int)
    requires
        0 <= k,
    ensures
        component_lines(s, k + 1) == component_lines(s, k) + component_line(s, k),
        s.components[k].kind == CompKind::Ground ==> component_line(s, k) == Seq::<char>::empty(),
{
}

/// Elements written so far, by kind.
struct KindCounts {
    r: usize,
    c: usize,
    l: usize,
    v: usize,
}

impl KindCounts {
    spec fn counts_upto(&self, cs: Seq<ComponentView>, k: int) -> bool {
        &&& self.r == kind_count(cs, k, CompKind::Resistor)
        &&& self.c == kind_count(cs, k, CompKind::Capacitor)
        &&& self.l == kind_count(cs, k, CompKind::Inductor)
        &&& self.v == kind_count(cs, k, CompKind::Voltage)
        &&& self.r <= k && self.c <= k && self.l <= k && self.v <= k
    }

    fn get(&self, kind: CompKind) -> (n: usize)
        requires
            kind != CompKind::Ground,
        ensures
            n == match kind {
                CompKind::Resistor => self.r,
                CompKind::Capacitor => self.c,
                CompKind::Inductor => self.l,
                _ => self.v,
            },
    {
        match kind {
            CompKind::Resistor => self.r,
            CompKind::Capacitor => self.c,
            CompKind::Inductor => self.l,
            _ => self.v,
        }
    }

    /// Counts component `k`, of kind `kind`.
    fn bump(&mut self, Ghost(cs): Ghost<Seq<ComponentView>>, Ghost(k): Ghost<int>, kind: CompKind)
        requires
            old(self).counts_upto(cs, k),
            0 <= k < cs.len(),
            k < usize::MAX,
            cs[k].kind == kind,
        ensures
            final(self).counts_upto(cs, k + 1),
            kind != CompKind::Ground ==> old(self).get_spec(kind) == kind_count(cs, k, kind),
    {
        match kind {
            CompKind::Resistor => {
                self.r = self.r + 1;
            },
            CompKind::Capacitor => {
                self.c = self.c + 1;
            },
            CompKind::Inductor => {
                self.l = self.l + 1;
            },
            CompKind::Voltage => {
                self.v = self.v + 1;
            },
            CompKind::Ground => {},
        }
    }

    spec fn get_spec(&self, kind: CompKind) -> nat {
        match kind {
            CompKind::Resistor => self.r as nat,
            CompKind::Capacitor => self.c as nat,
            CompKind::Inductor => self.l as nat,
            _ => self.v as nat,
        }
    }
}

/// The letter of an element kind.
fn letter_of(kind: CompKind) -> (c: char)
    ensures
        c == kind_letter(kind),
{
    match kind {
        CompKind::Resistor => 'R',
        CompKind::Capacitor => 'C',
        CompKind::Inductor => 'L',
        CompKind::Voltage => 'V',
        CompKind::Ground => 'G',
    }
}

/// `nums` gives the node of every point of `l`.
#[verifier::opaque]
spec fn numbers_ok(s: SchematicView, l: Seq<GridPt>, nums: Seq<usize>) -> bool {
    nums.len() == l.len() && forall|i: int| 0 <= i < l.len() ==> nums[i] == node_number(s, l, i)
}

proof fn lemma_pin_number(s: SchematicView, l: Seq<GridPt>, nums: Seq<usize>, p: GridPt, i: int)
    requires
        numbers_ok(s, l, nums),
        l == point_list(endpoints(s)),
        i == pt_index(l, p),
        0 <= i < l.len(),
    ensures
        nums[i] == pin_node(s, p),
{
    reveal(numbers_ok);
    reveal(pin_node);
}

/// Numbers the nets of a schematic and writes its netlist.
pub fn generate_netlist_from_schematic(s: &Schematic) -> (t: String)
    ensures
        t@ == netlist_text(s@),
{
    let l = sorted_points(s);
    let mut d = build_nets(s, &l);
    let nums = node_numbers(s, &l, &mut d);
    proof {
        reveal(numbers_ok);
    }
    let ghost sv = s@;
    let ghost cs = sv.components;
    let mut out = String::from_str("* Auto-generated from Schematic\n");
    let mut counts = KindCounts { r: 0, c: 0, l: 0, v: 0 };
    let mut k: usize = 0;
    while k < s.components.len()
        invariant
            sv == s@,
            cs == sv.components,
            cs.len() == s.components.len(),
            l@ == point_list(endpoints(sv)),
            lists_points(l@, endpoints(sv)),
            nums.len() == l.len(),
            numbers_ok(sv, l@, nums@),
            k <= cs.len(),
            counts.counts_upto(cs, k as int),
            out@ == "* Auto-generated from Schematic\n"@ + component_lines(sv, k as int),
        decreases cs.len() - k,
    {
        let c = &s.components[k];
        let ghost before = out@;
        proof {
            assert(cs[k as int] == c@);
        }
        if c.kind != CompKind::Ground {
            proof {
                lemma_pin_index(sv, l@, k as int);
                lemma_pin2_index(sv, l@, k as int);
            }
            let i1 = locate(&l, c.p1);
            let i2 = locate(&l, c.p2);
            let count = counts.get(c.kind);
            let letter = letter_of(c.kind);
            proof {
                lemma_pin_number(sv, l@, nums@, c.p1, i1 as int);
                lemma_pin_number(sv, l@, nums@, c.p2, i2 as int);
                lemma_component_line(
                    sv,
                    k as int,
                    letter,
                    count as nat,
                    nums@[i1 as int] as nat,
                    nums@[i2 as int] as nat,
                );
            }
            write_line(&mut out, letter, count, nums[i1], nums[i2], &c.val);
            assert(out@ == before + component_line(sv, k as int));
        }
        counts.bump(Ghost(cs), Ghost(k as int), c.kind);
        proof {
            lemma_component_lines_step(sv, k as int);
            assert(out@ =~= "* Auto-generated from Schematic\n"@ + component_lines(sv, k + 1));
        }
        k += 1;
    }
    out.append(".op\n");
    match s.analysis_type {
        AnalysisType::Tran => {
            out.append(".tran ");
            out.append(s.tran_step.as_str());
            out.append(" ");
            out.append(s.tran_stop.as_str());
            out.append("\n");
        },
        AnalysisType::Ac => {
            out.append(".ac ");
            out.append(s.ac_variation.as_str());
            out.append(" ");
            out.append(s.ac_points.as_str());
            out.append(" ");
            out.append(s.ac_fstart.as_str());
            out.append(" ");
            out.append(s.ac_fstop.as_str());
            out.append("\n");
        },
    }
    out.append(".end\n");
    proof {
        assert(out@ =~= netlist_text(s@));
    }
    out
}

} // verus!

verus! {

// ─── What node numbers mean ──────────────────────────────────────────────────

pub(crate) proof fn lemma_linked_refl(w: Seq<Wire>, k: nat, a: GridPt)
    ensures
        linked(w, k, a, a),
    decreases k,
{
    if k > 0 {
        lemma_linked_refl(w, (k - 1) as nat, a);
    }
}

pub(crate) proof fn lemma_linked_sym(w: Seq<Wire>, k: nat, a: GridPt, b: GridPt)
    ensures
        linked(w, k, a, b) == linked(w, k, b, a),
    decreases k,
{
    if k > 0 {
        let j = (k - 1) as nat;
        let u = w[j as int].p1;
        let v = w[j as int].p2;
        lemma_linked_sym(w, j, a, b);
        lemma_linked_sym(w, j, a, u);
        lemma_linked_sym(w, j, a, v);
        lemma_linked_sym(w, j, b, u);
        lemma_linked_sym(w, j, b, v);
    }
}

pub(crate) proof fn lemma_linked_trans(w: Seq<Wire>, k: nat, a: GridPt, b: GridPt, c: GridPt)
    requires
        linked(w, k, a, b),
        linked(w, k, b, c),
    ensures
        linked(w, k, a, c),
    decreases k,
{
    if k > 0 {
        let j = (k - 1) as nat;
        let u = w[j as int].p1;
        let v = w[j as int].p2;
        if linked(w, j, a, b) && linked(w, j, b, c) {
            lemma_linked_trans(w, j, a, b, c);
        }
        if linked(w, j, a, b) && linked(w, j, b, u) {
            lemma_linked_trans(w, j, a, b, u);
        }
        if linked(w, j, a, b) && linked(w, j, b, v) {
            lemma_linked_trans(w, j, a, b, v);
        }
        if linked(w, j, v, b) && linked(w, j, b, c) {
            lemma_linked_trans(w, j, v, b, c);
        }
        if linked(w, j, u, b) && linked(w, j, b, c) {
            lemma_linked_trans(w, j, u, b, c);
        }
        if linked(w, j, a, u) && linked(w, j, u, c) {
            lemma_linked_trans(w, j, a, u, c);
        }
        if linked(w, j, a, v) && linked(w, j, v, c) {
            lemma_linked_trans(w, j, a, v, c);
        }
    }
}

/// Being wired together is an equivalence.
proof fn lemma_same_net(s: SchematicView)
    ensures
        forall|a: GridPt| same_net(s, a, a),
        forall|a: GridPt, b: GridPt| same_net(s, a, b) ==> same_net(s, b, a),
        forall|a: GridPt, b: GridPt, c: GridPt|
            same_net(s, a, b) && same_net(s, b, c) ==> same_net(s, a, c),
{
    let w = s.wires;
    let k = w.len();
    assert forall|a: GridPt| same_net(s, a, a) by {
        lemma_linked_refl(w, k, a);
    }
    assert forall|a: GridPt, b: GridPt| same_net(s, a, b) implies same_net(s, b, a) by {
        lemma_linked_sym(w, k, a, b);
    }
    assert forall|a: GridPt, b: GridPt, c: GridPt|
        same_net(s, a, b) && same_net(s, b, c) implies same_net(s, a, c) by {
        lemma_linked_trans(w, k, a, b, c);
    }
}

proof fn lemma_first_of_net(s: SchematicView, l: Seq<GridPt>, j: int, i: int)
    requires
        0 <= j <= i < l.len(),
    ensures
        j <= first_from(s, l, j, i) <= i,
        same_net(s, l[first_from(s, l, j, i)], l[i]),
        forall|k: int| j <= k < first_from(s, l, j, i) ==> !same_net(s, l[k], l[i]),
    decreases i - j,
{
    lemma_same_net(s);
    if j < i && !same_net(s, l[j], l[i]) {
        lemma_first_of_net(s, l, j + 1, i);
    }
}

proof fn lemma_nets_before_mono(s: SchematicView, l: Seq<GridPt>, a: int, b: int)
    requires
        a <= b,
    ensures
        nets_before(s, l, a) <= nets_before(s, l, b),
    decreases b - a,
{
    if a < b {
        lemma_nets_before_mono(s, l, a, b - 1);
    }
}

proof fn lemma_grounded_net(s: SchematicView, p: GridPt, q: GridPt)
    requires
        same_net(s, p, q),
    ensures
        grounded(s, p) == grounded(s, q),
{
    lemma_same_net(s);
    if grounded(s, p) {
        let g = choose|g: int|
            0 <= g < s.components.len() && s.components[g].kind == CompKind::Ground && same_net(
                s,
                p,
                s.components[g].p1,
            );
        assert(same_net(s, q, s.components[g].p1));
    }
    if grounded(s, q) {
        let g = choose|g: int|
            0 <= g < s.components.len() && s.components[g].kind == CompKind::Ground && same_net(
                s,
                q,
                s.components[g].p1,
            );
        assert(same_net(s, p, s.components[g].p1));
    }
}

/// Node numbers identify nets: two points get the same number exactly when
/// they are wired together or both lie on nets tied to a ground symbol, and
/// the number is 0 exactly on those grounded nets.
pub proof fn law_node_numbers_identify_nets(s: SchematicView, l: Seq<GridPt>, i: int, j: int)
    requires
        0 <= i < l.len(),
        0 <= j < l.len(),
    ensures
        (node_number(s, l, i) == node_number(s, l, j)) <==> (same_net(s, l[i], l[j]) || (grounded(
            s,
            l[i],
        ) && grounded(s, l[j]))),
        (node_number(s, l, i) == 0) <==> grounded(s, l[i]),
{
    lemma_same_net(s);
    lemma_first_of_net(s, l, 0, i);
    lemma_first_of_net(s, l, 0, j);
    let fi = first_from(s, l, 0, i);
    let fj = first_from(s, l, 0, j);
    lemma_grounded_net(s, l[fi], l[i]);
    lemma_grounded_net(s, l[fj], l[j]);
    if same_net(s, l[i], l[j]) {
        lemma_grounded_net(s, l[i], l[j]);
        if fi < fj {
            assert(same_net(s, l[fi], l[j]));
        }
        if fj < fi {
            assert(same_net(s, l[fj], l[i]));
        }
    } else if !grounded(s, l[i]) && !grounded(s, l[j]) {
        // Different nets open at different places, and the later one has
        // counted the earlier.
        assert(fi != fj);
        if fi < fj {
            assert forall|k: int| 0 <= k < fi implies !same_net(s, l[k], l[fi]) by {
                if same_net(s, l[k], l[fi]) {
                    assert(same_net(s, l[k], l[i]));
                }
            }
            assert(opens_net(s, l, fi));
            lemma_nets_before_mono(s, l, fi + 1, fj);
        } else {
            assert forall|k: int| 0 <= k < fj implies !same_net(s, l[k], l[fj]) by {
                if same_net(s, l[k], l[fj]) {
                    assert(same_net(s, l[k], l[j]));
                }
            }
            assert(opens_net(s, l, fj));
            lemma_nets_before_mono(s, l, fj + 1, fi);
        }
    }
}

} // verus!

verus! {

// ─── Node labels ─────────────────────────────────────────────────────────────

/// No earlier point of `l` has the node number of `l[i]`.
pub open spec fn first_with_number(s: SchematicView, l: Seq<GridPt>, i: int) -> bool {
    forall|j: int| 0 <= j < i ==> node_number(s, l, j) != node_number(s, l, i)
}

/// The labels among the first `m` points: each node number with the first
/// point that has it.
pub open spec fn label_entries(s: SchematicView, l: Seq<GridPt>, m: int) -> Seq<(nat, GridPt)>
    decreases m,
{
    if m <= 0 {
        Seq::empty()
    } else {
        label_entries(s, l, m - 1) + if first_with_number(s, l, m - 1) {
            seq![(node_number(s, l, m - 1), l[m - 1])]
        } else {
            Seq::empty()
        }
    }
}

/// Where the node numbers of a schematic are shown: every number that its
/// netlist uses, once, at the first point (in row-major order) that has it.
pub open spec fn node_labels_spec(s: SchematicView) -> Seq<(nat, GridPt)> {
    let l = point_list(endpoints(s));
    label_entries(s, l, l.len() as int)
}

/// The node number labels of a schematic.
pub fn node_labels(s: &Schematic) -> (v: Vec<(usize, GridPt)>)
    ensures
        v@.map_values(|e: (usize, GridPt)| (e.0 as nat, e.1)) == node_labels_spec(s@),
{
    let l = sorted_points(s);
    let mut d = build_nets(s, &l);
    let nums = node_numbers(s, &l, &mut d);
    let ghost sv = s@;
    let mut v: Vec<(usize, GridPt)> = Vec::new();
    let mut i: usize = 0;
    while i < l.len()
        invariant
            sv == s@,
            l@ == point_list(endpoints(sv)),
            i <= l.len(),
            nums.len() == l.len(),
            forall|k: int| 0 <= k < l.len() ==> nums@[k] == node_number(sv, l@, k),
            v@.map_values(|e: (usize, GridPt)| (e.0 as nat, e.1)) == label_entries(
                sv,
                l@,
                i as int,
            ),
        decreases l.len() - i,
    {
        let mut first = true;
        let mut j: usize = 0;
        while j < i
            invariant
                j <= i < l.len(),
                nums.len() == l.len(),
                first <==> forall|k: int| 0 <= k < j ==> nums@[k] != nums@[i as int],
            decreases i - j,
        {
            if nums[j] == nums[i] {
                first = false;
            }
            j += 1;
        }
        proof {
            assert(first == first_with_number(sv, l@, i as int)) by {
                if !first {
                    let k = choose|k: int| 0 <= k < i && nums@[k] == nums@[i as int];
                    assert(node_number(sv, l@, k) == node_number(sv, l@, i as int));
                }
                if !first_with_number(sv, l@, i as int) {
                    let k = choose|k: int|
                        0 <= k < i && node_number(sv, l@, k) == node_number(sv, l@, i as int);
                    assert(nums@[k] == nums@[i as int]);
                }
            }
        }
        let ghost before = v@;
        if first {
            v.push((nums[i], l[i]));
        }
        proof {
            assert(v@.map_values(|e: (usize, GridPt)| (e.0 as nat, e.1)) =~= label_entries(
                sv,
                l@,
                i + 1,
            ));
        }
        i += 1;
    }
    v
}

/// Every label carries the number of its point, and no number is shown
/// twice.
pub proof fn law_labels_once(s: SchematicView, l: Seq<GridPt>, m: int)
    requires
        0 <= m <= l.len(),
    ensures
        forall|a: int, b: int|
            0 <= a < b < label_entries(s, l, m).len() ==> label_entries(s, l, m)[a].0
                != label_entries(s, l, m)[b].0,
        forall|a: int|
            #![trigger label_entries(s, l, m)[a]]
            0 <= a < label_entries(s, l, m).len() ==> exists|i: int|
                #![trigger l[i]]
                0 <= i < m && label_entries(s, l, m)[a] == (node_number(s, l, i), l[i]),
    decreases m,
{
    if m > 0 {
        law_labels_once(s, l, m - 1);
        let prev = label_entries(s, l, m - 1);
        let cur = label_entries(s, l, m);
        if first_with_number(s, l, m - 1) {
            assert forall|a: int, b: int| 0 <= a < b < cur.len() implies cur[a].0 != cur[b].0 by {
                if b == prev.len() {
                    assert(cur[a] == prev[a]);
                    let i = choose|i: int|
                        0 <= i < m - 1 && prev[a] == (node_number(s, l, i), l[i]);
                } else {
                    assert(cur[a] == prev[a]);
                    assert(cur[b] == prev[b]);
                }
            }
            assert forall|a: int| #![trigger cur[a]] 0 <= a < cur.len() implies exists|i: int|
                #![trigger l[i]]
                0 <= i < m && cur[a] == (node_number(s, l, i), l[i]) by {
                if a < prev.len() {
                    assert(cur[a] == prev[a]);
                    let i = choose|i: int|
                        0 <= i < m - 1 && prev[a] == (node_number(s, l, i), l[i]);
                    assert(0 <= i < m);
                } else {
                    assert(cur[a] == (node_number(s, l, m - 1), l[m - 1]));
                }
            }
        } else {
            assert(cur =~= prev);
            assert forall|a: int| #![trigger cur[a]] 0 <= a < cur.len() implies exists|i: int|
                #![trigger l[i]]
                0 <= i < m && cur[a] == (node_number(s, l, i), l[i]) by {
                let i = choose|i: int|
                    0 <= i < m - 1 && prev[a] == (node_number(s, l, i), l[i]);
                assert(0 <= i < m);
            }
        }
    }
}

} // verus!

verus! {

// ─── Plot selection ──────────────────────────────────────────────────────────

/// Which nodes the plots show after a run with `nodes` node voltages: the
/// list takes that length (new entries off), then nodes 1 to 3 are on and
/// the others from 1 on are off; node 0 keeps its setting.
pub open spec fn plot_selection_spec(current: Seq<bool>, nodes: nat) -> Seq<bool> {
    Seq::new(
        nodes,
        |i: int|
            if i == 0 {
                if current.len() > 0 {
                    current[0]
                } else {
                    false
                }
            } else {
                i <= 3
            },
    )
}

/// Resets the plotted nodes for results with `nodes` node voltages.
pub fn plot_selection(current: &Vec<bool>, nodes: usize) -> (v: Vec<bool>)
    ensures
        v@ == plot_selection_spec(current@, nodes as nat),
{
    let mut v: Vec<bool> = Vec::new();
    let mut i: usize = 0;
    while i < nodes
        invariant
            i <= nodes,
            v@ =~= plot_selection_spec(current@, nodes as nat).take(i as int),
        decreases nodes - i,
    {
        let b = if i == 0 {
            if current.len() > 0 {
                current[0]
            } else {
                false
            }
        } else {
            i <= 3
        };
        v.push(b);
        i += 1;
    }
    v
}

} // verus!

verus! {

// ─── Node numbers in the netlist ─────────────────────────────────────────────

/// `p` put into a sorted list of distinct points.
spec fn insert_sorted(l: Seq<GridPt>, p: GridPt) -> Seq<GridPt>
    decreases l.len(),
{
    if l.len() == 0 {
        seq![p]
    } else if l[0] == p {
        l
    } else if pt_lt(p, l[0]) {
        seq![p] + l
    } else {
        seq![l[0]] + insert_sorted(l.drop_first(), p)
    }
}

proof fn lemma_insert_sorted(l: Seq<GridPt>, p: GridPt)
    requires
        strictly_sorted(l),
    ensures
        strictly_sorted(insert_sorted(l, p)),
        forall|q: GridPt| #[trigger] insert_sorted(l, p).contains(q) <==> (l.contains(q) || q == p),
    decreases l.len(),
{
    let r = insert_sorted(l, p);
    if l.len() == 0 {
        assert forall|q: GridPt| r.contains(q) <==> (l.contains(q) || q == p) by {
            if r.contains(q) {
                let k = choose|k: int| 0 <= k < r.len() && r[k] == q;
            }
            if q == p {
                assert(r[0] == p);
            }
        }
    } else if l[0] == p {
        assert forall|q: GridPt| r.contains(q) <==> (l.contains(q) || q == p) by {
            if q == p {
                assert(l[0] == q);
            }
        }
    } else if pt_lt(p, l[0]) {
        assert forall|a: int, b: int| 0 <= a < b < r.len() implies pt_lt(r[a], r[b]) by {
            if a == 0 {
                if b > 1 {
                    assert(pt_lt(l[0], l[b - 1]));
                }
            } else {
                assert(r[a] == l[a - 1]);
                assert(r[b] == l[b - 1]);
            }
        }
        assert forall|q: GridPt| r.contains(q) <==> (l.contains(q) || q == p) by {
            if r.contains(q) {
                let k = choose|k: int| 0 <= k < r.len() && r[k] == q;
                if k > 0 {
                    assert(l[k - 1] == q);
                }
            }
            if l.contains(q) {
                let k = choose|k: int| 0 <= k < l.len() && l[k] == q;
                assert(r[k + 1] == q);
            }
            if q == p {
                assert(r[0] == p);
            }
        }
    } else {
        let t = l.drop_first();
        lemma_insert_sorted(t, p);
        let rt = insert_sorted(t, p);
        assert(r == seq![l[0]] + rt);
        assert forall|a: int, b: int| 0 <= a < b < r.len() implies pt_lt(r[a], r[b]) by {
            if a == 0 {
                assert(r[b] == rt[b - 1]);
                assert(rt.contains(rt[b - 1]));
                if rt[b - 1] != p {
                    assert(t.contains(rt[b - 1]));
                    let k = choose|k: int| 0 <= k < t.len() && t[k] == rt[b - 1];
                    assert(l[k + 1] == t[k]);
                    assert(pt_lt(l[0], l[k + 1]));
                }
            } else {
                assert(r[a] == rt[a - 1]);
                assert(r[b] == rt[b - 1]);
            }
        }
        assert forall|q: GridPt| r.contains(q) <==> (l.contains(q) || q == p) by {
            if r.contains(q) {
                let k = choose|k: int| 0 <= k < r.len() && r[k] == q;
                if k > 0 {
                    assert(rt[k - 1] == q);
                    assert(rt.contains(q));
                    if t.contains(q) {
                        let j = choose|j: int| 0 <= j < t.len() && t[j] == q;
                        assert(l[j + 1] == q);
                    }
                } else {
                    assert(l[0] == q);
                }
            }
            if l.contains(q) {
                let k = choose|k: int| 0 <= k < l.len() && l[k] == q;
                if k == 0 {
                    assert(r[0] == q);
                } else {
                    assert(t[k - 1] == q);
                    assert(t.contains(q));
                    assert(rt.contains(q));
                    let j = choose|j: int| 0 <= j < rt.len() && rt[j] == q;
                    assert(r[j + 1] == q);
                }
            }
            if q == p {
                assert(rt.contains(q));
                let j = choose|j: int| 0 <= j < rt.len() && rt[j] == q;
                assert(r[j + 1] == q);
            }
        }
    }
}

/// The points of `e`, sorted, each once.
spec fn sort_points(e: Seq<GridPt>) -> Seq<GridPt>
    decreases e.len(),
{
    if e.len() == 0 {
        Seq::empty()
    } else {
        insert_sorted(sort_points(e.drop_last()), e.last())
    }
}

proof fn lemma_sort_points(e: Seq<GridPt>)
    ensures
        lists_points(sort_points(e), e),
    decreases e.len(),
{
    if e.len() > 0 {
        let d = e.drop_last();
        lemma_sort_points(d);
        lemma_insert_sorted(sort_points(d), e.last());
        assert forall|q: GridPt| sort_points(e).contains(q) <==> e.contains(q) by {
            if e.contains(q) {
                let k = choose|k: int| 0 <= k < e.len() && e[k] == q;
                if k < d.len() {
                    assert(d[k] == q);
                    assert(d.contains(q));
                }
            }
            if d.contains(q) {
                let k = choose|k: int| 0 <= k < d.len() && d[k] == q;
                assert(e[k] == q);
            }
        }
    }
}

/// `point_list` lists every point of `e` once, in row-major order.
pub proof fn law_point_list(e: Seq<GridPt>)
    ensures
        lists_points(point_list(e), e),
{
    lemma_sort_points(e);
}

/// Some label among those of the first `m` points carries the number `v`.
spec fn has_label(s: SchematicView, l: Seq<GridPt>, m: int, v: nat) -> bool {
    exists|a: int|
        0 <= a < label_entries(s, l, m).len() && (#[trigger] label_entries(s, l, m)[a]).0 == v
}

/// Label `e` stands at a point, among the first `m`, that is the first with
/// its number.
spec fn label_at_first(s: SchematicView, l: Seq<GridPt>, m: int, e: (nat, GridPt)) -> bool {
    exists|i: int|
        0 <= i < m && first_with_number(s, l, i) && e == (node_number(s, l, i), #[trigger] l[i])
}

/// Among the first `m` points every node number gets a label.
proof fn lemma_label_cover(s: SchematicView, l: Seq<GridPt>, m: int)
    requires
        0 <= m <= l.len(),
    ensures
        forall|k: int| 0 <= k < m ==> has_label(s, l, m, #[trigger] node_number(s, l, k)),
    decreases m,
{
    if m > 0 {
        lemma_label_cover(s, l, m - 1);
        let prev = label_entries(s, l, m - 1);
        let cur = label_entries(s, l, m);
        assert forall|v: nat| has_label(s, l, m - 1, v) implies has_label(s, l, m, v) by {
            let a = choose|a: int| 0 <= a < prev.len() && (#[trigger] prev[a]).0 == v;
            assert(cur[a] == prev[a]);
        }
        assert forall|k: int| 0 <= k < m implies has_label(s, l, m, #[trigger] node_number(s, l, k)) by {
            if k == m - 1 {
                if first_with_number(s, l, k) {
                    assert(cur[prev.len() as int].0 == node_number(s, l, k));
                } else {
                    let j = choose|j: int|
                        0 <= j < k && !(node_number(s, l, j) != node_number(s, l, k));
                    assert(has_label(s, l, m - 1, node_number(s, l, j)));
                }
            } else {
                assert(has_label(s, l, m - 1, node_number(s, l, k)));
            }
        }
    }
}

/// Each label among those of the first `m` points stands at the first point
/// with its number.
proof fn lemma_label_origin(s: SchematicView, l: Seq<GridPt>, m: int)
    requires
        0 <= m <= l.len(),
    ensures
        forall|a: int|
            0 <= a < label_entries(s, l, m).len() ==> label_at_first(
                s,
                l,
                m,
                #[trigger] label_entries(s, l, m)[a],
            ),
    decreases m,
{
    if m > 0 {
        lemma_label_origin(s, l, m - 1);
        let prev = label_entries(s, l, m - 1);
        let cur = label_entries(s, l, m);
        assert forall|a: int| 0 <= a < cur.len() implies label_at_first(s, l, m, #[trigger] cur[a]) by {
            if a < prev.len() {
                assert(cur[a] == prev[a]);
                assert(label_at_first(s, l, m - 1, prev[a]));
                let i = choose|i: int|
                    0 <= i < m - 1 && first_with_number(s, l, i) && prev[a] == (
                        node_number(s, l, i),
                        #[trigger] l[i],
                    );
                assert(0 <= i < m);
            } else {
                assert(cur[a] == (node_number(s, l, m - 1), l[m - 1]));
            }
        }
    }
}

/// Every node number that a pin or wire end of the schematic has is shown by
/// a label, at a point no later (in row-major order) than any point with that
/// number; and each label stands on a point that has its number. With
/// `law_labels_once`: one label per number, at the least point that has it.
pub proof fn law_labels_at_least_points(s: SchematicView)
    ensures
        forall|p: GridPt|
            #![trigger pin_node(s, p)]
            endpoints(s).contains(p) ==> exists|a: int|
                0 <= a < node_labels_spec(s).len() && #[trigger] node_labels_spec(s)[a].0
                    == pin_node(s, p) && (node_labels_spec(s)[a].1 == p || pt_lt(
                    node_labels_spec(s)[a].1,
                    p,
                )),
        forall|a: int|
            #![trigger node_labels_spec(s)[a]]
            0 <= a < node_labels_spec(s).len() ==> endpoints(s).contains(node_labels_spec(s)[a].1)
                && pin_node(s, node_labels_spec(s)[a].1) == node_labels_spec(s)[a].0,
{
    reveal(pin_node);
    let e = endpoints(s);
    let l = point_list(e);
    let labs = node_labels_spec(s);
    law_point_list(e);
    lemma_label_cover(s, l, l.len() as int);
    lemma_label_origin(s, l, l.len() as int);
    assert(labs == label_entries(s, l, l.len() as int));
    assert forall|p: GridPt| #![trigger pin_node(s, p)] e.contains(p) implies exists|a: int|
        0 <= a < labs.len() && #[trigger] labs[a].0 == pin_node(s, p) && (labs[a].1 == p || pt_lt(
            labs[a].1,
            p,
        )) by {
        lemma_pt_index(l, p);
        let k = pt_index(l, p);
        assert(node_number(s, l, k) == pin_node(s, p));
        assert(has_label(s, l, l.len() as int, node_number(s, l, k)));
        let a = choose|a: int| 0 <= a < labs.len() && (#[trigger] labs[a]).0 == node_number(s, l, k);
        assert(label_at_first(s, l, l.len() as int, labs[a]));
        let i = choose|i: int|
            0 <= i < l.len() && first_with_number(s, l, i) && labs[a] == (
                node_number(s, l, i),
                #[trigger] l[i],
            );
        if k < i {
            assert(node_number(s, l, k) != node_number(s, l, i));
        } else if i < k {
            assert(pt_lt(l[i], l[k]));
        }
    }
    assert forall|a: int| #![trigger labs[a]] 0 <= a < labs.len() implies e.contains(labs[a].1)
        && pin_node(s, labs[a].1) == labs[a].0 by {
        assert(label_at_first(s, l, l.len() as int, labs[a]));
        let i = choose|i: int|
            0 <= i < l.len() && first_with_number(s, l, i) && labs[a] == (
                node_number(s, l, i),
                #[trigger] l[i],
            );
        assert(l.contains(l[i]));
        lemma_pt_index(l, l[i]);
    }
}

/// Some node label shows the number `v`.
pub open spec fn shows_number(s: SchematicView, v: nat) -> bool {
    exists|a: int| 0 <= a < node_labels_spec(s).len() && (#[trigger] node_labels_spec(s)[a]).0 == v
}

/// The node labels of a schematic, all told: no number is shown twice; each
/// label stands on a pin or wire end that has its number; every number that a
/// pin or wire end has is shown; and a label stands at the least point (in
/// row-major order) among those with its number.
pub proof fn law_node_labels(s: SchematicView)
    ensures
        forall|a: int, b: int|
            0 <= a < b < node_labels_spec(s).len() ==> (#[trigger] node_labels_spec(s)[a]).0
                != (#[trigger] node_labels_spec(s)[b]).0,
        forall|a: int|
            #![trigger node_labels_spec(s)[a]]
            0 <= a < node_labels_spec(s).len() ==> endpoints(s).contains(node_labels_spec(s)[a].1)
                && pin_node(s, node_labels_spec(s)[a].1) == node_labels_spec(s)[a].0,
        forall|p: GridPt|
            endpoints(s).contains(p) ==> shows_number(s, #[trigger] pin_node(s, p)),
        forall|a: int, p: GridPt|
            0 <= a < node_labels_spec(s).len() && endpoints(s).contains(p) && #[trigger] pin_node(
                s,
                p,
            ) == (#[trigger] node_labels_spec(s)[a]).0 ==> node_labels_spec(s)[a].1 == p || pt_lt(
                node_labels_spec(s)[a].1,
                p,
            ),
{
    let e = endpoints(s);
    let l = point_list(e);
    let labs = node_labels_spec(s);
    assert(labs == label_entries(s, l, l.len() as int));
    assert forall|a: int, b: int| 0 <= a < b < labs.len() implies (#[trigger] labs[a]).0
        != (#[trigger] labs[b]).0 by {
        law_labels_once(s, l, l.len() as int);
        assert(label_entries(s, l, l.len() as int)[a] == labs[a]);
        assert(label_entries(s, l, l.len() as int)[b] == labs[b]);
    }
    assert forall|a: int| #![trigger labs[a]] 0 <= a < labs.len() implies e.contains(labs[a].1)
        && pin_node(s, labs[a].1) == labs[a].0 by {
        law_labels_at_least_points(s);
    }
    assert forall|p: GridPt| e.contains(p) implies shows_number(s, #[trigger] pin_node(s, p)) by {
        let a = lemma_label_for_point(s, p);
        assert(node_labels_spec(s)[a].0 == pin_node(s, p));
    }
    assert forall|a: int, p: GridPt|
        0 <= a < labs.len() && e.contains(p) && #[trigger] pin_node(s, p) == (
        #[trigger] labs[a]).0 implies labs[a].1 == p || pt_lt(labs[a].1, p) by {
        let a2 = lemma_label_for_point(s, p);
        if a2 < a {
            assert(labs[a2].0 != labs[a].0);
        } else if a < a2 {
            assert(labs[a].0 != labs[a2].0);
        }
    }
}

/// The label that shows the number of point `p`, at or before `p`.
proof fn lemma_label_for_point(s: SchematicView, p: GridPt) -> (a: int)
    requires
        endpoints(s).contains(p),
    ensures
        0 <= a < node_labels_spec(s).len(),
        node_labels_spec(s)[a].0 == pin_node(s, p),
        node_labels_spec(s)[a].1 == p || pt_lt(node_labels_spec(s)[a].1, p),
{
    law_labels_at_least_points(s);
    assert(pin_node(s, p) == pin_node(s, p));
    choose|a: int|
        0 <= a < node_labels_spec(s).len() && #[trigger] node_labels_spec(s)[a].0 == pin_node(s, p)
            && (node_labels_spec(s)[a].1 == p || pt_lt(node_labels_spec(s)[a].1, p))
}

/// In a schematic's netlist, two pins (or wire ends) have the same node
/// number exactly when they are wired together or both lie on grounded nets;
/// ground is node 0.
pub proof fn law_netlist_nodes(s: SchematicView, p: GridPt, q: GridPt)
    requires
        endpoints(s).contains(p),
        endpoints(s).contains(q),
    ensures
        (pin_node(s, p) == pin_node(s, q)) <==> (same_net(s, p, q) || (grounded(s, p) && grounded(
            s,
            q,
        ))),
        (pin_node(s, p) == 0) <==> grounded(s, p),
{
    reveal(pin_node);
    let e = endpoints(s);
    let l = point_list(e);
    law_point_list(e);
    lemma_pt_index(l, p);
    lemma_pt_index(l, q);
    law_node_numbers_identify_nets(s, l, pt_index(l, p), pt_index(l, q));
}

} // verus!
