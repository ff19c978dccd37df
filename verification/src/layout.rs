//! Drawing a netlist as a schematic: element lines become components placed
//! between vertical node spines, packed into rows so that none overlap.
use vstd::prelude::*;

use crate::schematic::{
    endpoints, grounded, law_netlist_nodes, lemma_linked_refl, lemma_linked_sym,
    lemma_linked_trans, linked, pin_node, same_net, AnalysisType, CompKind, Component,
    ComponentView, GridPt, Schematic, SchematicView, Wire,
};
use crate::text::{
    chars_of, has_prefix, join, join_from, lemma_split_ws_first, lemma_trim_first, lines,
    lower_seq, lowercase, parse_usize, parse_usize_chars, split_lines, split_whitespace, split_ws,
    starts_with, string_of, to_upper, trim, trim_chars, upper, views,
};

verus! {

// ─── Reading element lines ───────────────────────────────────────────────────

/// An element line as the schematic import reads it: a kind, two node
/// numbers and the rest of the line as its value.
pub struct NetlistComponent {
    pub kind: CompKind,
    pub node_a: usize,
    pub node_b: usize,
    pub val: String,
}

pub struct NetlistComponentView {
    pub kind: CompKind,
    pub node_a: usize,
    pub node_b: usize,
    pub val: Seq<char>,
}

impl View for NetlistComponent {
    type V = NetlistComponentView;

    open spec fn view(&self) -> NetlistComponentView {
        NetlistComponentView {
            kind: self.kind,
            node_a: self.node_a,
            node_b: self.node_b,
            val: self.val@,
        }
    }
}

pub open spec fn component_views(v: Seq<NetlistComponent>) -> Seq<NetlistComponentView> {
    Seq::new(v.len(), |i: int| v[i]@)
}

/// The kind of element that a name starting with `c` stands for.
pub open spec fn kind_of_letter(c: char) -> Option<CompKind> {
    let u = upper(c);
    if u == 'R' {
        Some(CompKind::Resistor)
    } else if u == 'C' {
        Some(CompKind::Capacitor)
    } else if u == 'L' {
        Some(CompKind::Inductor)
    } else if u == 'V' {
        Some(CompKind::Voltage)
    } else {
        None
    }
}

/// The element on a line: after trimming, not empty, not a comment or a
/// dot card; at least four fields, a name starting with R, C, L or V, and
/// two node numbers. Its value is the remaining fields joined by spaces.
pub open spec fn line_component(line: Seq<char>) -> Option<NetlistComponentView> {
    let t = trim(line);
    if t.len() == 0 || t[0] == '*' || t[0] == '.' {
        None
    } else {
        let toks = split_ws(t);
        if toks.len() < 4 {
            None
        } else {
            match (kind_of_letter(toks[0][0]), parse_usize(toks[1]), parse_usize(toks[2])) {
                (Some(k), Some(a), Some(b)) => Some(
                    NetlistComponentView {
                        kind: k,
                        node_a: a,
                        node_b: b,
                        val: join(toks.skip(3), " "@),
                    },
                ),
                _ => None,
            }
        }
    }
}

/// The elements of the given lines, in order.
pub open spec fn netlist_components(ls: Seq<Seq<char>>) -> Seq<NetlistComponentView>
    decreases ls.len(),
{
    if ls.len() == 0 {
        Seq::empty()
    } else {
        netlist_components(ls.drop_last()) + match line_component(ls.last()) {
            Some(c) => seq![c],
            None => Seq::empty(),
        }
    }
}

fn kind_of(c: char) -> (r: Option<CompKind>)
    ensures
        r == kind_of_letter(c),
{
    let u = to_upper(c);
    if u == 'R' {
        Some(CompKind::Resistor)
    } else if u == 'C' {
        Some(CompKind::Capacitor)
    } else if u == 'L' {
        Some(CompKind::Inductor)
    } else if u == 'V' {
        Some(CompKind::Voltage)
    } else {
        None
    }
}

fn line_component_of(line: &[char]) -> (r: Option<NetlistComponent>)
    ensures
        match line_component(line@) {
            Some(c) => r matches Some(x) && x@ == c,
            None => r is None,
        },
{
    let t = trim_chars(line);
    if t.len() == 0 || t[0] == '*' || t[0] == '.' {
        return None;
    }
    let toks = split_whitespace(&t);
    if toks.len() < 4 {
        return None;
    }
    proof {
        lemma_trim_first(line@);
        lemma_split_ws_first(t@);
        assert(views(toks@)[0] == toks@[0]@);
        assert(views(toks@)[1] == toks@[1]@);
        assert(views(toks@)[2] == toks@[2]@);
    }
    let kind = match kind_of(toks[0][0]) {
        Some(k) => k,
        None => {
            return None;
        },
    };
    let node_a = match parse_usize_chars(&toks[1]) {
        Some(n) => n,
        None => {
            return None;
        },
    };
    let node_b = match parse_usize_chars(&toks[2]) {
        Some(n) => n,
        None => {
            return None;
        },
    };
    let sep: Vec<char> = vec![' '];
    let val = join_from(&toks, 3, sep.as_slice());
    proof {
        reveal_strlit(" ");
        assert(sep@ =~= " "@);
        assert(val@ == join(split_ws(t@).skip(3), " "@));
    }
    let c = NetlistComponent { kind, node_a, node_b, val: string_of(&val) };
    assert(c@.val == join(split_ws(trim(line@)).skip(3), " "@));
    Some(c)
}

/// The elements of a netlist, as the schematic import reads them.
pub fn read_components(text: &str) -> (v: Vec<NetlistComponent>)
    ensures
        component_views(v@) == netlist_components(lines(text@)),
{
    let src = chars_of(text);
    let ls = split_lines(&src);
    let ghost all = views(ls@);
    let mut v: Vec<NetlistComponent> = Vec::new();
    let mut k: usize = 0;
    while k < ls.len()
        invariant
            k <= ls.len(),
            all == views(ls@),
            all == lines(text@),
            component_views(v@) == netlist_components(all.take(k as int)),
        decreases ls.len() - k,
    {
        assert(all[k as int] == ls@[k as int]@);
        let r = line_component_of(&ls[k]);
        proof {
            assert(all.take(k + 1).drop_last() =~= all.take(k as int));
            assert(all.take(k + 1).last() == all[k as int]);
        }
        match r {
            Some(c) => {
                v.push(c);
                assert(component_views(v@) =~= netlist_components(all.take(k + 1)));
            },
            None => {
                assert(component_views(v@) =~= netlist_components(all.take(k + 1)));
            },
        }
        k += 1;
    }
    assert(all.take(ls.len() as int) =~= all);
    v
}

} // verus!

verus! {

// ─── Node columns ────────────────────────────────────────────────────────────

pub open spec fn increasing(l: Seq<usize>) -> bool {
    forall|i: int, j: int| 0 <= i < j < l.len() ==> l[i] < l[j]
}

/// `n` is a node other than ground that one of the first `k` elements uses.
pub open spec fn uses_node(cs: Seq<NetlistComponentView>, k: int, n: usize) -> bool {
    n != 0 && exists|i: int| 0 <= i < k && (cs[i].node_a == n || cs[i].node_b == n)
}

/// `l` lists, in increasing order, the nodes other than ground that the
/// elements use.
pub open spec fn lists_nodes(l: Seq<usize>, cs: Seq<NetlistComponentView>) -> bool {
    increasing(l) && forall|n: usize| l.contains(n) <==> uses_node(cs, cs.len() as int, n)
}

/// The nodes other than ground, in increasing order: one spine column each.
pub open spec fn node_list(cs: Seq<NetlistComponentView>) -> Seq<usize> {
    choose|l: Seq<usize>| lists_nodes(l, cs)
}

/// The column of node `n` in `l`; -1 for ground.
pub open spec fn col_of(l: Seq<usize>, n: usize) -> int {
    if n == 0 {
        -1
    } else {
        choose|i: int| 0 <= i < l.len() && l[i] == n
    }
}

proof fn lemma_col_of(l: Seq<usize>, n: usize, i: int)
    requires
        increasing(l),
        n != 0,
        0 <= i < l.len(),
        l[i] == n,
    ensures
        col_of(l, n) == i,
{
    let j = choose|j: int| 0 <= j < l.len() && l[j] == n;
    assert(0 <= j < l.len() && l[j] == n);
    if j < i {
        assert(l[j] < l[i]);
    } else if i < j {
        assert(l[i] < l[j]);
    }
}

proof fn lemma_increasing_unique(a: Seq<usize>, b: Seq<usize>)
    requires
        increasing(a),
        increasing(b),
        forall|n: usize| a.contains(n) <==> b.contains(n),
    ensures
        a == b,
    decreases a.len() + b.len(),
{
    if a.len() == 0 {
        if b.len() > 0 {
            assert(b.contains(b[0]));
        }
        assert(a =~= b);
    } else if b.len() == 0 {
        assert(a.contains(a[0]));
    } else {
        assert(a.contains(a[0]));
        assert(b.contains(b[0]));
        let ja = choose|j: int| 0 <= j < a.len() && a[j] == b[0];
        let jb = choose|j: int| 0 <= j < b.len() && b[j] == a[0];
        if ja > 0 {
            assert(a[0] < a[ja]);
        }
        if jb > 0 {
            assert(b[0] < b[jb]);
        }
        assert(a[0] == b[0]);
        let a2 = a.drop_first();
        let b2 = b.drop_first();
        assert forall|p: usize| a2.contains(p) <==> b2.contains(p) by {
            if a2.contains(p) {
                let k = choose|k: int| 0 <= k < a2.len() && a2[k] == p;
                assert(a[0] < a[k + 1]);
                assert(a.contains(p));
                let m = choose|m: int| 0 <= m < b.len() && b[m] == p;
                assert(m != 0);
                assert(b2[m - 1] == p);
            }
            if b2.contains(p) {
                let k = choose|k: int| 0 <= k < b2.len() && b2[k] == p;
                assert(b[0] < b[k + 1]);
                assert(b.contains(p));
                let m = choose|m: int| 0 <= m < a.len() && a[m] == p;
                assert(m != 0);
                assert(a2[m - 1] == p);
            }
        }
        lemma_increasing_unique(a2, b2);
        assert(a =~= seq![a[0]] + a2);
        assert(b =~= seq![b[0]] + b2);
    }
}

/// The first position in increasing `l` whose entry is not below `n`.
fn lower_bound(l: &Vec<usize>, n: usize) -> (i: usize)
    requires
        increasing(l@),
    ensures
        i <= l.len(),
        forall|j: int| 0 <= j < i ==> l@[j] < n,
        forall|j: int| i <= j < l.len() ==> l@[j] >= n,
{
    let mut lo: usize = 0;
    let mut hi: usize = l.len();
    while lo < hi
        invariant
            lo <= hi <= l.len(),
            increasing(l@),
            forall|j: int| 0 <= j < lo ==> l@[j] < n,
            forall|j: int| hi <= j < l.len() ==> l@[j] >= n,
        decreases hi - lo,
    {
        let mid = lo + (hi - lo) / 2;
        if l[mid] < n {
            lo = mid + 1;
        } else {
            hi = mid;
        }
    }
    lo
}

/// Adds `n` to an increasing list, unless it is there.
#[verifier::spinoff_prover]
fn insert_node(l: &mut Vec<usize>, n: usize)
    requires
        increasing(old(l)@),
    ensures
        increasing(final(l)@),
        forall|q: usize| final(l)@.contains(q) <==> (old(l)@.contains(q) || q == n),
        final(l).len() <= old(l).len() + 1,
{
    let i = lower_bound(l, n);
    if i < l.len() && l[i] == n {
        return;
    }
    let ghost before = l@;
    l.insert(i, n);
    proof {
        assert(l@ =~= before.take(i as int).push(n) + before.skip(i as int));
        assert forall|a: int, b: int| 0 <= a < b < l@.len() implies l@[a] < l@[b] by {
            if b < i {
            } else if b == i {
                assert(l@[a] == before[a]);
            } else if a < i {
                assert(l@[b] == before[b - 1]);
            } else if a == i {
                assert(l@[b] == before[b - 1]);
                assert(before[i as int] != n);
            } else {
                assert(l@[a] == before[a - 1]);
                assert(l@[b] == before[b - 1]);
            }
        }
        assert forall|q: usize| l@.contains(q) <==> (before.contains(q) || q == n) by {
            if l@.contains(q) {
                let k = choose|k: int| 0 <= k < l@.len() && l@[k] == q;
                if k < i {
                    assert(before[k] == q);
                } else if k > i {
                    assert(before[k - 1] == q);
                }
            }
            if before.contains(q) {
                let k = choose|k: int| 0 <= k < before.len() && before[k] == q;
                if k < i {
                    assert(l@[k] == q);
                } else {
                    assert(l@[k + 1] == q);
                }
            }
            if q == n {
                assert(l@[i as int] == n);
            }
        }
    }
}

/// The column of a node that the list holds.
fn column(l: &Vec<usize>, n: usize) -> (i: usize)
    requires
        increasing(l@),
        l@.contains(n),
        n != 0,
    ensures
        i < l.len(),
        l@[i as int] == n,
        i == col_of(l@, n),
{
    let i = lower_bound(l, n);
    proof {
        let k = choose|k: int| 0 <= k < l@.len() && l@[k] == n;
        assert(k >= i);
        if k > i {
            assert(l@[i as int] < l@[k]);
        }
        lemma_col_of(l@, n, i as int);
    }
    i
}

/// The nodes that the elements use, in increasing order.
fn collect_nodes(cs: &Vec<NetlistComponent>) -> (l: Vec<usize>)
    ensures
        lists_nodes(l@, component_views(cs@)),
        l@ == node_list(component_views(cs@)),
        l.len() <= 2 * cs.len(),
{
    let ghost cv = component_views(cs@);
    let mut l: Vec<usize> = Vec::new();
    let mut k: usize = 0;
    while k < cs.len()
        invariant
            cv == component_views(cs@),
            k <= cs.len(),
            increasing(l@),
            l.len() <= 2 * k,
            forall|q: usize| l@.contains(q) <==> uses_node(cv, k as int, q),
        decreases cs.len() - k,
    {
        let a = cs[k].node_a;
        let b = cs[k].node_b;
        let ghost l0 = l@;
        if a != 0 {
            insert_node(&mut l, a);
        }
        let ghost l1 = l@;
        if b != 0 {
            insert_node(&mut l, b);
        }
        proof {
            assert(cv[k as int] == cs@[k as int]@);
            assert forall|q: usize| l@.contains(q) <==> uses_node(cv, k + 1, q) by {
                if uses_node(cv, k + 1, q) {
                    let i = choose|i: int| 0 <= i < k + 1 && (cv[i].node_a == q || cv[i].node_b == q);
                    if i < k {
                        assert(uses_node(cv, k as int, q));
                    }
                }
                if uses_node(cv, k as int, q) {
                    let i = choose|i: int| 0 <= i < k && (cv[i].node_a == q || cv[i].node_b == q);
                    assert(0 <= i < k + 1);
                }
            }
        }
        k += 1;
    }
    proof {
        let c = choose|c: Seq<usize>| lists_nodes(c, cv);
        assert(lists_nodes(l@, cv));
        lemma_increasing_unique(l@, c);
    }
    l
}

} // verus!

verus! {

// ─── Placing elements ────────────────────────────────────────────────────────

/// The most elements that one import lays out: up to here every grid
/// coordinate of the layout fits in `i32`.
pub const IMPORT_LIMIT: usize = 178000000;

/// What the layout holds so far: components and wires drawn, the pins on
/// each node spine (node, y), the half-column spans taken in each row
/// (row, start, end), and the number of rows.
pub struct LayoutView {
    pub components: Seq<ComponentView>,
    pub wires: Seq<Wire>,
    pub pins: Seq<(usize, i32)>,
    pub spans: Seq<(usize, i32, i32)>,
    pub rows: nat,
}

pub open spec fn empty_layout() -> LayoutView {
    LayoutView {
        components: Seq::empty(),
        wires: Seq::empty(),
        pins: Seq::empty(),
        spans: Seq::empty(),
        rows: 0,
    }
}

/// Span `iv` lies in row `r` and shares ground with `[s, e]`.
pub open spec fn collides(iv: (usize, i32, i32), r: int, s: int, e: int) -> bool {
    iv.0 == r && !(e < iv.1 || s > iv.2)
}

pub open spec fn row_free(spans: Seq<(usize, i32, i32)>, r: int, s: int, e: int) -> bool {
    forall|j: int| 0 <= j < spans.len() ==> !collides(spans[j], r, s, e)
}

/// The first row from `r` on where `[s, e]` fits; `rows` (a new row) when
/// none of the existing rows has room.
pub open spec fn free_row(spans: Seq<(usize, i32, i32)>, rows: nat, s: int, e: int, r: nat) -> nat
    decreases rows - r,
{
    if r >= rows || row_free(spans, r as int, s, e) {
        r
    } else {
        free_row(spans, rows, s, e, r + 1)
    }
}

/// The half-column span of an element between columns `ca` and `cb` (-1 for
/// ground), and the half-column where it is drawn: between two spines, in the
/// channel right of the midpoint (or of the spine it is attached to).
pub open spec fn span(ca: int, cb: int) -> (int, int, int) {
    if ca >= 0 && cb >= 0 {
        let s = if ca <= cb {
            ca
        } else {
            cb
        } * 2;
        let e = if ca <= cb {
            cb
        } else {
            ca
        } * 2;
        let m = s + (e - s) / 2;
        (s, e, if m % 2 == 0 {
            m + 1
        } else {
            m
        })
    } else {
        let c = if ca >= cb {
            ca
        } else {
            cb
        };
        (c * 2, c * 2 + 1, c * 2 + 1)
    }
}

/// Connects an element's pin at `(x, y)`: a wire to the node's spine (unless
/// the pin is on it) for a node other than ground, a ground symbol otherwise.
pub open spec fn attach(st: LayoutView, node: usize, col: int, x: int, y: int) -> LayoutView {
    if node != 0 {
        let spine = 3 + col * 6;
        LayoutView {
            wires: if spine != x {
                st.wires.push(
                    Wire { p1: GridPt(x as i32, y as i32), p2: GridPt(spine as i32, y as i32) },
                )
            } else {
                st.wires
            },
            pins: st.pins.push((node, y as i32)),
            ..st
        }
    } else {
        LayoutView {
            components: st.components.push(
                ComponentView {
                    kind: CompKind::Ground,
                    p1: GridPt(x as i32, y as i32),
                    p2: GridPt(x as i32, y as i32),
                    val: Seq::empty(),
                },
            ),
            ..st
        }
    }
}

/// Places one element: in the first row where its span is free, standing
/// vertically (four units tall) at its half-column; an element with both
/// pins on ground is left out.
pub open spec fn place(st: LayoutView, nodes: Seq<usize>, c: NetlistComponentView) -> LayoutView {
    let ca = col_of(nodes, c.node_a);
    let cb = col_of(nodes, c.node_b);
    if ca < 0 && cb < 0 {
        st
    } else {
        let (s, e, m) = span(ca, cb);
        let r = free_row(st.spans, st.rows, s, e, 0);
        let y: int = 3 + (r as int) * 10;
        let x: int = 3 + m * 3;
        let st1 = LayoutView {
            components: st.components.push(
                ComponentView {
                    kind: c.kind,
                    p1: GridPt(x as i32, y as i32),
                    p2: GridPt(x as i32, (y + 4) as i32),
                    val: c.val,
                },
            ),
            spans: st.spans.push((r as usize, s as i32, e as i32)),
            rows: if r == st.rows {
                st.rows + 1
            } else {
                st.rows
            },
            ..st
        };
        attach(attach(st1, c.node_a, ca, x, y), c.node_b, cb, x, y + 4)
    }
}

/// The layout of the first `k` elements.
pub open spec fn layout_upto(cs: Seq<NetlistComponentView>, nodes: Seq<usize>, k: int) -> LayoutView
    decreases k,
{
    if k <= 0 {
        empty_layout()
    } else {
        place(layout_upto(cs, nodes, k - 1), nodes, cs[k - 1])
    }
}

struct LayoutState {
    components: Vec<Component>,
    wires: Vec<Wire>,
    pins: Vec<(usize, i32)>,
    spans: Vec<(usize, i32, i32)>,
    rows: usize,
}

impl View for LayoutState {
    type V = LayoutView;

    closed spec fn view(&self) -> LayoutView {
        LayoutView {
            components: self.components@.map_values(|c: Component| c@),
            wires: self.wires@,
            pins: self.pins@,
            spans: self.spans@,
            rows: self.rows as nat,
        }
    }
}

fn row_is_free(spans: &Vec<(usize, i32, i32)>, r: usize, s: i32, e: i32) -> (b: bool)
    ensures
        b == row_free(spans@, r as int, s as int, e as int),
{
    let mut j: usize = 0;
    while j < spans.len()
        invariant
            j <= spans.len(),
            forall|i: int| 0 <= i < j ==> !collides(spans@[i], r as int, s as int, e as int),
        decreases spans.len() - j,
    {
        let iv = spans[j];
        if iv.0 == r && !(e < iv.1 || s > iv.2) {
            assert(collides(spans@[j as int], r as int, s as int, e as int));
            return false;
        }
        j += 1;
    }
    true
}

fn find_row(spans: &Vec<(usize, i32, i32)>, rows: usize, s: i32, e: i32) -> (r: usize)
    ensures
        r == free_row(spans@, rows as nat, s as int, e as int, 0),
        r <= rows,
{
    let mut r: usize = 0;
    while r < rows && !row_is_free(spans, r, s, e)
        invariant
            r <= rows,
            free_row(spans@, rows as nat, s as int, e as int, 0) == free_row(
                spans@,
                rows as nat,
                s as int,
                e as int,
                r as nat,
            ),
        decreases rows - r,
    {
        r += 1;
    }
    r
}

impl LayoutState {
    fn attach_pin(&mut self, node: usize, col: i32, x: i32, y: i32)
        requires
            node != 0 ==> 0 <= col <= 2 * IMPORT_LIMIT,
        ensures
            final(self)@ == attach(old(self)@, node, col as int, x as int, y as int),
            final(self).rows == old(self).rows,
    {
        if node != 0 {
            let spine = 3 + col * 6;
            if spine != x {
                self.wires.push(Wire { p1: GridPt(x, y), p2: GridPt(spine, y) });
            }
            self.pins.push((node, y));
        } else {
            let ghost before = self.components@;
            self.components.push(
                Component { kind: CompKind::Ground, p1: GridPt(x, y), p2: GridPt(x, y), val: String::new() },
            );
            assert(self.components@.map_values(|c: Component| c@) =~= before.map_values(
                |c: Component| c@,
            ).push(
                ComponentView {
                    kind: CompKind::Ground,
                    p1: GridPt(x, y),
                    p2: GridPt(x, y),
                    val: Seq::empty(),
                },
            ));
        }
    }

    fn place_component(&mut self, nodes: &Vec<usize>, c: &NetlistComponent)
        requires
            increasing(nodes@),
            nodes.len() <= 2 * IMPORT_LIMIT,
            old(self).rows < IMPORT_LIMIT,
            c.node_a != 0 ==> nodes@.contains(c.node_a),
            c.node_b != 0 ==> nodes@.contains(c.node_b),
        ensures
            final(self)@ == place(old(self)@, nodes@, c@),
            final(self).rows <= old(self).rows + 1,
    {
        let ca: i32 = if c.node_a == 0 {
            -1
        } else {
            column(nodes, c.node_a) as i32
        };
        let cb: i32 = if c.node_b == 0 {
            -1
        } else {
            column(nodes, c.node_b) as i32
        };
        if ca < 0 && cb < 0 {
            return;
        }
        let s: i32;
        let e: i32;
        let m: i32;
        if ca >= 0 && cb >= 0 {
            let lo = if ca <= cb {
                ca
            } else {
                cb
            };
            let hi = if ca <= cb {
                cb
            } else {
                ca
            };
            s = lo * 2;
            e = hi * 2;
            let m0 = s + (e - s) / 2;
            m = if m0 % 2 == 0 {
                m0 + 1
            } else {
                m0
            };
        } else {
            let k = if ca >= cb {
                ca
            } else {
                cb
            };
            s = k * 2;
            e = k * 2 + 1;
            m = k * 2 + 1;
        }
        assert((s as int, e as int, m as int) == span(ca as int, cb as int));
        let r = find_row(&self.spans, self.rows, s, e);
        let y: i32 = 3 + (r as i32) * 10;
        let x: i32 = 3 + m * 3;
        let ghost before = self.components@;
        self.components.push(
            Component { kind: c.kind, p1: GridPt(x, y), p2: GridPt(x, y + 4), val: c.val.clone() },
        );
        assert(self.components@.map_values(|c: Component| c@) =~= before.map_values(
            |c: Component| c@,
        ).push(
            ComponentView {
                kind: c.kind,
                p1: GridPt(x, y),
                p2: GridPt(x, (y + 4) as i32),
                val: c.val@,
            },
        ));
        self.spans.push((r, s, e));
        if r == self.rows {
            self.rows = self.rows + 1;
        }
        self.attach_pin(c.node_a, ca, x, y);
        self.attach_pin(c.node_b, cb, x, y + 4);
    }
}

} // verus!

verus! {

// ─── Spines ──────────────────────────────────────────────────────────────────

pub open spec fn ascending(l: Seq<i32>) -> bool {
    forall|i: int, j: int| 0 <= i < j < l.len() ==> l[i] < l[j]
}

/// `l` lists, in increasing order, the heights of the pins on node `n`.
pub open spec fn lists_heights(l: Seq<i32>, pins: Seq<(usize, i32)>, n: usize) -> bool {
    ascending(l) && forall|y: i32| l.contains(y) <==> pins.contains((n, y))
}

/// The heights of the pins on the spine of node `n`, lowest first, each once.
pub open spec fn pin_heights(pins: Seq<(usize, i32)>, n: usize) -> Seq<i32> {
    choose|l: Seq<i32>| lists_heights(l, pins, n)
}

/// The spine at `x` through the heights `ys`: a wire between each two
/// neighbouring heights, so that every pin on it ends a wire.
pub open spec fn spine_segments(x: int, ys: Seq<i32>) -> Seq<Wire> {
    Seq::new(
        if ys.len() == 0 {
            0
        } else {
            (ys.len() - 1) as nat
        },
        |i: int| Wire { p1: GridPt(x as i32, ys[i]), p2: GridPt(x as i32, ys[i + 1]) },
    )
}

/// The vertical spine wires of the first `k` nodes.
pub open spec fn spine_wires(nodes: Seq<usize>, pins: Seq<(usize, i32)>, k: int) -> Seq<Wire>
    decreases k,
{
    if k <= 0 {
        Seq::empty()
    } else {
        spine_wires(nodes, pins, k - 1) + spine_segments(
            3 + (k - 1) * 6,
            pin_heights(pins, nodes[k - 1]),
        )
    }
}

/// The components and wires that draw the elements `cs`.
pub open spec fn schematic_layout(cs: Seq<NetlistComponentView>) -> (Seq<ComponentView>, Seq<Wire>) {
    let nodes = node_list(cs);
    let lay = layout_upto(cs, nodes, cs.len() as int);
    (lay.components, lay.wires + spine_wires(nodes, lay.pins, nodes.len() as int))
}

/// Placing an element adds pins only for its own nodes other than ground.
proof fn lemma_place_pins(st: LayoutView, nodes: Seq<usize>, c: NetlistComponentView)
    ensures
        place(st, nodes, c).pins.len() >= st.pins.len(),
        forall|j: int|
            0 <= j < place(st, nodes, c).pins.len() ==> if j < st.pins.len() {
                place(st, nodes, c).pins[j] == st.pins[j]
            } else {
                place(st, nodes, c).pins[j].0 != 0 && (place(st, nodes, c).pins[j].0 == c.node_a
                    || place(st, nodes, c).pins[j].0 == c.node_b)
            },
{
}

proof fn lemma_ascending_unique(a: Seq<i32>, b: Seq<i32>)
    requires
        ascending(a),
        ascending(b),
        forall|y: i32| a.contains(y) <==> b.contains(y),
    ensures
        a == b,
    decreases a.len() + b.len(),
{
    if a.len() == 0 {
        if b.len() > 0 {
            assert(b.contains(b[0]));
        }
        assert(a =~= b);
    } else if b.len() == 0 {
        assert(a.contains(a[0]));
    } else {
        assert(a.contains(a[0]));
        assert(b.contains(b[0]));
        let ja = choose|j: int| 0 <= j < a.len() && a[j] == b[0];
        let jb = choose|j: int| 0 <= j < b.len() && b[j] == a[0];
        if ja > 0 {
            assert(a[0] < a[ja]);
        }
        if jb > 0 {
            assert(b[0] < b[jb]);
        }
        let a2 = a.drop_first();
        let b2 = b.drop_first();
        assert forall|p: i32| a2.contains(p) <==> b2.contains(p) by {
            if a2.contains(p) {
                let k = choose|k: int| 0 <= k < a2.len() && a2[k] == p;
                assert(a[0] < a[k + 1]);
                assert(a.contains(p));
                let m = choose|m: int| 0 <= m < b.len() && b[m] == p;
                assert(m != 0);
                assert(b2[m - 1] == p);
            }
            if b2.contains(p) {
                let k = choose|k: int| 0 <= k < b2.len() && b2[k] == p;
                assert(b[0] < b[k + 1]);
                assert(b.contains(p));
                let m = choose|m: int| 0 <= m < a.len() && a[m] == p;
                assert(m != 0);
                assert(a2[m - 1] == p);
            }
        }
        lemma_ascending_unique(a2, b2);
        assert(a =~= seq![a[0]] + a2);
        assert(b =~= seq![b[0]] + b2);
    }
}

/// Adds `y` to an increasing list of heights, unless it is there.
#[verifier::spinoff_prover]
fn insert_height(l: &mut Vec<i32>, y: i32)
    requires
        ascending(old(l)@),
    ensures
        ascending(final(l)@),
        forall|q: i32| final(l)@.contains(q) <==> (old(l)@.contains(q) || q == y),
        final(l).len() <= old(l).len() + 1,
{
    let mut i: usize = 0;
    while i < l.len() && l[i] < y
        invariant
            i <= l.len(),
            forall|j: int| 0 <= j < i ==> l@[j] < y,
        decreases l.len() - i,
    {
        i += 1;
    }
    if i < l.len() && l[i] == y {
        return;
    }
    let ghost before = l@;
    proof {
        assert forall|j: int| i <= j < before.len() implies before[j] > y by {
            if j > i {
                assert(before[i as int] < before[j]);
            }
        }
    }
    l.insert(i, y);
    proof {
        assert(l@ =~= before.take(i as int).push(y) + before.skip(i as int));
        assert forall|a: int, b: int| 0 <= a < b < l@.len() implies l@[a] < l@[b] by {
            if b < i {
            } else if b == i {
                assert(l@[a] == before[a]);
            } else if a < i {
                assert(l@[b] == before[b - 1]);
            } else if a == i {
                assert(l@[b] == before[b - 1]);
            } else {
                assert(l@[a] == before[a - 1]);
                assert(l@[b] == before[b - 1]);
            }
        }
        assert forall|q: i32| l@.contains(q) <==> (before.contains(q) || q == y) by {
            if l@.contains(q) {
                let k = choose|k: int| 0 <= k < l@.len() && l@[k] == q;
                if k < i {
                    assert(before[k] == q);
                } else if k > i {
                    assert(before[k - 1] == q);
                }
            }
            if before.contains(q) {
                let k = choose|k: int| 0 <= k < before.len() && before[k] == q;
                if k < i {
                    assert(l@[k] == q);
                } else {
                    assert(l@[k + 1] == q);
                }
            }
            if q == y {
                assert(l@[i as int] == y);
            }
        }
    }
}

/// The heights of the pins on node `n`, lowest first, each once.
fn node_heights(pins: &Vec<(usize, i32)>, n: usize) -> (l: Vec<i32>)
    ensures
        l@ == pin_heights(pins@, n),
        l.len() <= pins.len(),
{
    let mut l: Vec<i32> = Vec::new();
    let mut j: usize = 0;
    while j < pins.len()
        invariant
            j <= pins.len(),
            l.len() <= j,
            ascending(l@),
            forall|y: i32| l@.contains(y) <==> pins@.take(j as int).contains((n, y)),
        decreases pins.len() - j,
    {
        let (m, y) = pins[j];
        if m == n {
            insert_height(&mut l, y);
        }
        proof {
            let t = pins@.take(j + 1);
            assert(t =~= pins@.take(j as int).push(pins@[j as int]));
            assert forall|q: i32| l@.contains(q) <==> t.contains((n, q)) by {
                if t.contains((n, q)) {
                    let k = choose|k: int| 0 <= k < t.len() && t[k] == (n, q);
                    if k < j {
                        assert(pins@.take(j as int)[k] == (n, q));
                    }
                }
                if pins@.take(j as int).contains((n, q)) {
                    let k = choose|k: int| 0 <= k < j && pins@.take(j as int)[k] == (n, q);
                    assert(t[k] == (n, q));
                }
                if m == n && q == y {
                    assert(t[j as int] == (n, q));
                }
            }
        }
        j += 1;
    }
    proof {
        assert(pins@.take(pins.len() as int) =~= pins@);
        let c = choose|c: Seq<i32>| lists_heights(c, pins@, n);
        assert(lists_heights(l@, pins@, n));
        lemma_ascending_unique(l@, c);
    }
    l
}

/// Lays out the elements of a netlist: node spines in increasing node order,
/// elements packed into rows, wires from pins to spines, ground symbols.
pub fn layout_components(cs: &Vec<NetlistComponent>) -> (r: (Vec<Component>, Vec<Wire>))
    requires
        cs.len() <= IMPORT_LIMIT,
    ensures
        (r.0@.map_values(|c: Component| c@), r.1@) == schematic_layout(component_views(cs@)),
{
    let ghost cv = component_views(cs@);
    let nodes = collect_nodes(cs);
    let mut st = LayoutState {
        components: Vec::new(),
        wires: Vec::new(),
        pins: Vec::new(),
        spans: Vec::new(),
        rows: 0,
    };
    proof {
        assert(st@.components =~= Seq::<ComponentView>::empty());
    }
    let mut k: usize = 0;
    while k < cs.len()
        invariant
            cv == component_views(cs@),
            cs.len() <= IMPORT_LIMIT,
            lists_nodes(nodes@, cv),
            nodes@ == node_list(cv),
            nodes.len() <= 2 * cs.len(),
            k <= cs.len(),
            st.rows <= k,
            st@ == layout_upto(cv, nodes@, k as int),
            forall|j: int| 0 <= j < st@.pins.len() ==> st@.pins[j].0 != 0 && nodes@.contains(#[trigger] st@.pins[j].0),
        decreases cs.len() - k,
    {
        let c = &cs[k];
        proof {
            assert(cv[k as int] == c@);
            if c.node_a != 0 {
                assert(uses_node(cv, cv.len() as int, c.node_a));
            }
            if c.node_b != 0 {
                assert(uses_node(cv, cv.len() as int, c.node_b));
            }
        }
        let ghost before = st@;
        st.place_component(&nodes, c);
        proof {
            lemma_place_pins(before, nodes@, c@);
        }
        k += 1;
    }
    let mut wires = st.wires;
    let ghost base = wires@;
    let mut c: usize = 0;
    while c < nodes.len()
        invariant
            c <= nodes.len(),
            nodes.len() <= 2 * IMPORT_LIMIT,
            wires@ == base + spine_wires(nodes@, st@.pins, c as int),
        decreases nodes.len() - c,
    {
        let ys = node_heights(&st.pins, nodes[c]);
        let x: i32 = 3 + (c as i32) * 6;
        let ghost w0 = wires@;
        let ghost segs = spine_segments(x as int, ys@);
        let mut i: usize = 0;
        while i + 1 < ys.len()
            invariant
                i <= ys.len(),
                ys.len() > 0 ==> i < ys.len(),
                segs == spine_segments(x as int, ys@),
                wires@ == w0 + segs.take(i as int),
            decreases ys.len() - i,
        {
            wires.push(Wire { p1: GridPt(x, ys[i]), p2: GridPt(x, ys[i + 1]) });
            proof {
                assert(segs.take(i + 1) =~= segs.take(i as int).push(segs[i as int]));
            }
            i += 1;
        }
        proof {
            assert(segs.take(i as int) =~= segs);
            assert(wires@ =~= base + spine_wires(nodes@, st@.pins, c + 1));
        }
        c += 1;
    }
    (st.components, wires)
}

} // verus!

verus! {

// ─── Analysis cards ──────────────────────────────────────────────────────────

/// A `.tran` or `.ac` card sets the schematic's analysis and the settings it
/// gives (the fields are read after trimming and lower-casing the line).
pub open spec fn apply_card(s: SchematicView, line: Seq<char>) -> SchematicView {
    let t = lower_seq(trim(line));
    let toks = split_ws(t);
    if starts_with(t, ".tran"@) {
        SchematicView {
            analysis_type: AnalysisType::Tran,
            tran_step: if toks.len() > 1 {
                toks[1]
            } else {
                s.tran_step
            },
            tran_stop: if toks.len() > 2 {
                toks[2]
            } else {
                s.tran_stop
            },
            ..s
        }
    } else if starts_with(t, ".ac"@) {
        SchematicView {
            analysis_type: AnalysisType::Ac,
            ac_variation: if toks.len() > 1 {
                toks[1]
            } else {
                s.ac_variation
            },
            ac_points: if toks.len() > 2 {
                toks[2]
            } else {
                s.ac_points
            },
            ac_fstart: if toks.len() > 3 {
                toks[3]
            } else {
                s.ac_fstart
            },
            ac_fstop: if toks.len() > 4 {
                toks[4]
            } else {
                s.ac_fstop
            },
            ..s
        }
    } else {
        s
    }
}

/// The cards of all lines, in order.
pub open spec fn apply_cards(s: SchematicView, ls: Seq<Seq<char>>) -> SchematicView
    decreases ls.len(),
{
    if ls.len() == 0 {
        s
    } else {
        apply_card(apply_cards(s, ls.drop_last()), ls.last())
    }
}

fn read_card(schematic: &mut Schematic, line: &[char])
    ensures
        final(schematic)@ == apply_card(old(schematic)@, line@),
{
    let t = lowercase(&trim_chars(line));
    let toks = split_whitespace(&t);
    let tran = chars_of(".tran");
    let ac = chars_of(".ac");
    proof {
        let v = views(toks@);
        if toks.len() > 1 {
            assert(v[1] == toks@[1]@);
        }
        if toks.len() > 2 {
            assert(v[2] == toks@[2]@);
        }
        if toks.len() > 3 {
            assert(v[3] == toks@[3]@);
        }
        if toks.len() > 4 {
            assert(v[4] == toks@[4]@);
        }
    }
    if has_prefix(&t, &tran) {
        schematic.analysis_type = AnalysisType::Tran;
        if toks.len() > 1 {
            schematic.tran_step = string_of(&toks[1]);
        }
        if toks.len() > 2 {
            schematic.tran_stop = string_of(&toks[2]);
        }
    } else if has_prefix(&t, &ac) {
        schematic.analysis_type = AnalysisType::Ac;
        if toks.len() > 1 {
            schematic.ac_variation = string_of(&toks[1]);
        }
        if toks.len() > 2 {
            schematic.ac_points = string_of(&toks[2]);
        }
        if toks.len() > 3 {
            schematic.ac_fstart = string_of(&toks[3]);
        }
        if toks.len() > 4 {
            schematic.ac_fstop = string_of(&toks[4]);
        }
    }
}

// ─── Import ──────────────────────────────────────────────────────────────────

/// The schematic drawn from a netlist: its elements laid out, nothing
/// selected, and the analysis settings its cards give; other settings stay as
/// they were.
pub open spec fn imported_schematic(s: SchematicView, text: Seq<char>) -> SchematicView {
    let cs = netlist_components(lines(text));
    let lay = schematic_layout(cs);
    SchematicView {
        components: lay.0,
        wires: lay.1,
        selected_component: None,
        selected_wire: None,
        ..apply_cards(s, lines(text))
    }
}

/// Replaces the schematic with a drawing of the netlist. Returns how many
/// elements were read; `None`, with the schematic unchanged, when the
/// netlist holds no element line, or more than `IMPORT_LIMIT`.
pub fn generate_schematic_from_netlist(schematic: &mut Schematic, netlist: &str) -> (r: Option<
    usize,
>)
    ensures
        ({
            let n = netlist_components(lines(netlist@)).len();
            if n == 0 || n > IMPORT_LIMIT {
                r is None && final(schematic)@ == old(schematic)@
            } else {
                r == Some(n as usize) && final(schematic)@ == imported_schematic(
                    old(schematic)@,
                    netlist@,
                )
            }
        }),
{
    let cs = read_components(netlist);
    let ghost cv = component_views(cs@);
    if cs.len() == 0 || cs.len() > IMPORT_LIMIT {
        return None;
    }
    let (components, wires) = layout_components(&cs);
    let src = chars_of(netlist);
    let ls = split_lines(&src);
    let ghost all = views(ls@);
    let ghost s0 = schematic@;
    let mut k: usize = 0;
    while k < ls.len()
        invariant
            k <= ls.len(),
            all == views(ls@),
            all == lines(netlist@),
            schematic@ == apply_cards(s0, all.take(k as int)),
        decreases ls.len() - k,
    {
        assert(all[k as int] == ls@[k as int]@);
        read_card(schematic, &ls[k]);
        proof {
            assert(all.take(k + 1).drop_last() =~= all.take(k as int));
        }
        k += 1;
    }
    proof {
        assert(all.take(ls.len() as int) =~= all);
    }
    schematic.components = components;
    schematic.wires = wires;
    schematic.selected_component = None;
    schematic.selected_wire = None;
    Some(cs.len())
}

} // verus!

verus! {

// ─── Rows never overlap ──────────────────────────────────────────────────────

/// Every span lies in an existing row, and no two spans in one row share
/// ground.
pub open spec fn rows_disjoint(st: LayoutView) -> bool {
    &&& forall|j: int| 0 <= j < st.spans.len() ==> (#[trigger] st.spans[j]).0 < st.rows
    &&& forall|a: int, b: int|
        0 <= a < b < st.spans.len() ==> !collides(
            #[trigger] st.spans[b],
            st.spans[a].0 as int,
            st.spans[a].1 as int,
            #[trigger] st.spans[a].2 as int,
        )
}

proof fn lemma_free_row(spans: Seq<(usize, i32, i32)>, rows: nat, s: int, e: int, r: nat)
    requires
        r <= rows,
    ensures
        r <= free_row(spans, rows, s, e, r) <= rows,
        free_row(spans, rows, s, e, r) < rows ==> row_free(
            spans,
            free_row(spans, rows, s, e, r) as int,
            s,
            e,
        ),
    decreases rows - r,
{
    if r < rows && !row_free(spans, r as int, s, e) {
        lemma_free_row(spans, rows, s, e, r + 1);
    }
}

proof fn lemma_place_disjoint(st: LayoutView, nodes: Seq<usize>, c: NetlistComponentView)
    requires
        rows_disjoint(st),
        st.rows < IMPORT_LIMIT,
        nodes.len() <= 2 * IMPORT_LIMIT,
        c.node_a != 0 ==> nodes.contains(c.node_a),
        c.node_b != 0 ==> nodes.contains(c.node_b),
    ensures
        rows_disjoint(place(st, nodes, c)),
        place(st, nodes, c).rows <= st.rows + 1,
{
    let ca = col_of(nodes, c.node_a);
    let cb = col_of(nodes, c.node_b);
    if !(ca < 0 && cb < 0) {
        let (s, e, m) = span(ca, cb);
        assert(0 <= s <= 4 * IMPORT_LIMIT && 0 <= e <= 4 * IMPORT_LIMIT);
        let r = free_row(st.spans, st.rows, s, e, 0);
        lemma_free_row(st.spans, st.rows, s, e, 0);
        let p = place(st, nodes, c);
        assert(p.spans == st.spans.push((r as usize, s as i32, e as i32)));
        assert forall|a: int, b: int| 0 <= a < b < p.spans.len() implies !collides(
            #[trigger] p.spans[b],
            p.spans[a].0 as int,
            p.spans[a].1 as int,
            #[trigger] p.spans[a].2 as int,
        ) by {
            if b == st.spans.len() {
                assert(p.spans[a] == st.spans[a]);
                if r < st.rows {
                    assert(!collides(st.spans[a], r as int, s, e));
                } else {
                    assert(st.spans[a].0 < st.rows);
                }
            } else {
                assert(p.spans[a] == st.spans[a]);
                assert(p.spans[b] == st.spans[b]);
            }
        }
        assert forall|j: int| 0 <= j < p.spans.len() implies (#[trigger] p.spans[j]).0 < p.rows by {
            if j < st.spans.len() {
                assert(p.spans[j] == st.spans[j]);
            }
        }
    }
}

/// The row packer never lets two elements of one row overlap: the spans of
/// the elements laid out so far are pairwise apart within each row.
pub proof fn law_rows_disjoint(cs: Seq<NetlistComponentView>, nodes: Seq<usize>, k: int)
    requires
        lists_nodes(nodes, cs),
        nodes.len() <= 2 * IMPORT_LIMIT,
        cs.len() <= IMPORT_LIMIT,
        0 <= k <= cs.len(),
    ensures
        rows_disjoint(layout_upto(cs, nodes, k)),
        layout_upto(cs, nodes, k).rows <= k,
    decreases k,
{
    if k > 0 {
        law_rows_disjoint(cs, nodes, k - 1);
        let c = cs[k - 1];
        if c.node_a != 0 {
            assert(uses_node(cs, cs.len() as int, c.node_a));
        }
        if c.node_b != 0 {
            assert(uses_node(cs, cs.len() as int, c.node_b));
        }
        lemma_place_disjoint(layout_upto(cs, nodes, k - 1), nodes, c);
    }
}

} // verus!

verus! {

// ─── Nets of a drawn netlist ─────────────────────────────────────────────────

proof fn lemma_insert_node(l: Seq<usize>, n: usize) -> (r: Seq<usize>)
    requires
        increasing(l),
    ensures
        increasing(r),
        forall|q: usize| r.contains(q) <==> (l.contains(q) || q == n),
        r.len() <= l.len() + 1,
    decreases l.len(),
{
    if l.len() == 0 {
        let r = seq![n];
        assert forall|q: usize| r.contains(q) <==> (l.contains(q) || q == n) by {
            if r.contains(q) {
                let k = choose|k: int| 0 <= k < r.len() && r[k] == q;
            }
            if q == n {
                assert(r[0] == n);
            }
        }
        r
    } else if l[0] == n {
        assert forall|q: usize| l.contains(q) <==> (l.contains(q) || q == n) by {
            if q == n {
                assert(l[0] == n);
            }
        }
        l
    } else if n < l[0] {
        let r = seq![n] + l;
        assert forall|i: int, j: int| 0 <= i < j < r.len() implies r[i] < r[j] by {
            if i == 0 {
                if j > 1 {
                    assert(l[0] < l[j - 1]);
                }
            } else {
                assert(r[i] == l[i - 1] && r[j] == l[j - 1]);
            }
        }
        assert forall|q: usize| r.contains(q) <==> (l.contains(q) || q == n) by {
            if r.contains(q) {
                let k = choose|k: int| 0 <= k < r.len() && r[k] == q;
                if k > 0 {
                    assert(l[k - 1] == q);
                }
            }
            if l.contains(q) {
                let k = choose|k: int| 0 <= k < l.len() && l[k] == q;
                assert(r[k + 1] == q);
            }
            if q == n {
                assert(r[0] == n);
            }
        }
        r
    } else {
        let t = lemma_insert_node(l.drop_first(), n);
        let r = seq![l[0]] + t;
        assert forall|x: usize| t.contains(x) implies l[0] < x by {
            if x != n {
                assert(l.drop_first().contains(x));
                let k = choose|k: int| 0 <= k < l.drop_first().len() && l.drop_first()[k] == x;
                assert(l[0] < l[k + 1]);
            }
        }
        assert forall|i: int, j: int| 0 <= i < j < r.len() implies r[i] < r[j] by {
            if i == 0 {
                assert(t.contains(t[j - 1]));
            } else {
                assert(r[i] == t[i - 1] && r[j] == t[j - 1]);
            }
        }
        assert forall|q: usize| r.contains(q) <==> (l.contains(q) || q == n) by {
            if r.contains(q) {
                let k = choose|k: int| 0 <= k < r.len() && r[k] == q;
                if k > 0 {
                    assert(t.contains(t[k - 1]));
                    if q != n {
                        let m = choose|m: int|
                            0 <= m < l.drop_first().len() && l.drop_first()[m] == q;
                        assert(l[m + 1] == q);
                    }
                } else {
                    assert(l[0] == q);
                }
            }
            if l.contains(q) {
                let k = choose|k: int| 0 <= k < l.len() && l[k] == q;
                if k > 0 {
                    assert(l.drop_first()[k - 1] == q);
                    assert(t.contains(q));
                    let m = choose|m: int| 0 <= m < t.len() && t[m] == q;
                    assert(r[m + 1] == q);
                } else {
                    assert(r[0] == q);
                }
            }
            if q == n {
                assert(t.contains(n));
                let m = choose|m: int| 0 <= m < t.len() && t[m] == n;
                assert(r[m + 1] == n);
            }
        }
        r
    }
}

proof fn lemma_nodes_upto(cs: Seq<NetlistComponentView>, k: int) -> (l: Seq<usize>)
    requires
        0 <= k <= cs.len(),
    ensures
        increasing(l),
        forall|q: usize| l.contains(q) <==> uses_node(cs, k, q),
        l.len() <= 2 * k,
    decreases k,
{
    if k == 0 {
        Seq::empty()
    } else {
        let l0 = lemma_nodes_upto(cs, k - 1);
        let c = cs[k - 1];
        let l1 = if c.node_a != 0 {
            lemma_insert_node(l0, c.node_a)
        } else {
            l0
        };
        let l2 = if c.node_b != 0 {
            lemma_insert_node(l1, c.node_b)
        } else {
            l1
        };
        assert forall|q: usize| l2.contains(q) <==> uses_node(cs, k, q) by {
            if uses_node(cs, k, q) {
                let i = choose|i: int| 0 <= i < k && (cs[i].node_a == q || cs[i].node_b == q);
                if i < k - 1 {
                    assert(uses_node(cs, k - 1, q));
                }
            }
            if uses_node(cs, k - 1, q) {
                let i = choose|i: int| 0 <= i < k - 1 && (cs[i].node_a == q || cs[i].node_b == q);
                assert(0 <= i < k);
            }
        }
        l2
    }
}

/// The node columns always exist, at most two per element.
proof fn lemma_node_list(cs: Seq<NetlistComponentView>)
    ensures
        lists_nodes(node_list(cs), cs),
        node_list(cs).len() <= 2 * cs.len(),
{
    let l = lemma_nodes_upto(cs, cs.len() as int);
    assert(lists_nodes(l, cs));
    let c = node_list(cs);
    lemma_increasing_unique(l, c);
}

proof fn lemma_insert_height(l: Seq<i32>, y: i32) -> (r: Seq<i32>)
    requires
        ascending(l),
    ensures
        ascending(r),
        forall|q: i32| r.contains(q) <==> (l.contains(q) || q == y),
    decreases l.len(),
{
    if l.len() == 0 {
        let r = seq![y];
        assert forall|q: i32| r.contains(q) <==> (l.contains(q) || q == y) by {
            if r.contains(q) {
                let k = choose|k: int| 0 <= k < r.len() && r[k] == q;
            }
            if q == y {
                assert(r[0] == y);
            }
        }
        r
    } else if l[0] == y {
        assert forall|q: i32| l.contains(q) <==> (l.contains(q) || q == y) by {
            if q == y {
                assert(l[0] == y);
            }
        }
        l
    } else if y < l[0] {
        let r = seq![y] + l;
        assert forall|i: int, j: int| 0 <= i < j < r.len() implies r[i] < r[j] by {
            if i == 0 {
                if j > 1 {
                    assert(l[0] < l[j - 1]);
                }
            } else {
                assert(r[i] == l[i - 1] && r[j] == l[j - 1]);
            }
        }
        assert forall|q: i32| r.contains(q) <==> (l.contains(q) || q == y) by {
            if r.contains(q) {
                let k = choose|k: int| 0 <= k < r.len() && r[k] == q;
                if k > 0 {
                    assert(l[k - 1] == q);
                }
            }
            if l.contains(q) {
                let k = choose|k: int| 0 <= k < l.len() && l[k] == q;
                assert(r[k + 1] == q);
            }
            if q == y {
                assert(r[0] == y);
            }
        }
        r
    } else {
        let t = lemma_insert_height(l.drop_first(), y);
        let r = seq![l[0]] + t;
        assert forall|x: i32| t.contains(x) implies l[0] < x by {
            if x != y {
                assert(l.drop_first().contains(x));
                let k = choose|k: int| 0 <= k < l.drop_first().len() && l.drop_first()[k] == x;
                assert(l[0] < l[k + 1]);
            }
        }
        assert forall|i: int, j: int| 0 <= i < j < r.len() implies r[i] < r[j] by {
            if i == 0 {
                assert(t.contains(t[j - 1]));
            } else {
                assert(r[i] == t[i - 1] && r[j] == t[j - 1]);
            }
        }
        assert forall|q: i32| r.contains(q) <==> (l.contains(q) || q == y) by {
            if r.contains(q) {
                let k = choose|k: int| 0 <= k < r.len() && r[k] == q;
                if k > 0 {
                    assert(t.contains(t[k - 1]));
                    if q != y {
                        let m = choose|m: int|
                            0 <= m < l.drop_first().len() && l.drop_first()[m] == q;
                        assert(l[m + 1] == q);
                    }
                } else {
                    assert(l[0] == q);
                }
            }
            if l.contains(q) {
                let k = choose|k: int| 0 <= k < l.len() && l[k] == q;
                if k > 0 {
                    assert(l.drop_first()[k - 1] == q);
                    assert(t.contains(q));
                    let m = choose|m: int| 0 <= m < t.len() && t[m] == q;
                    assert(r[m + 1] == q);
                } else {
                    assert(r[0] == q);
                }
            }
            if q == y {
                assert(t.contains(y));
                let m = choose|m: int| 0 <= m < t.len() && t[m] == y;
                assert(r[m + 1] == y);
            }
        }
        r
    }
}

proof fn lemma_heights_upto(pins: Seq<(usize, i32)>, n: usize, k: int) -> (l: Seq<i32>)
    requires
        0 <= k <= pins.len(),
    ensures
        lists_heights(l, pins.take(k), n),
    decreases k,
{
    if k == 0 {
        assert forall|y: i32| !pins.take(0).contains((n, y)) by {}
        Seq::empty()
    } else {
        let l0 = lemma_heights_upto(pins, n, k - 1);
        let p = pins[k - 1];
        let l1 = if p.0 == n {
            lemma_insert_height(l0, p.1)
        } else {
            l0
        };
        let t = pins.take(k);
        assert(t =~= pins.take(k - 1).push(p));
        assert forall|y: i32| l1.contains(y) <==> t.contains((n, y)) by {
            if t.contains((n, y)) {
                let i = choose|i: int| 0 <= i < t.len() && t[i] == (n, y);
                if i < k - 1 {
                    assert(pins.take(k - 1)[i] == (n, y));
                }
            }
            let prev = pins.take(k - 1);
            if prev.contains((n, y)) {
                let i = choose|i: int| 0 <= i < prev.len() && prev[i] == (n, y);
                assert(t[i] == (n, y));
            }
            if p.0 == n && y == p.1 {
                assert(t[k - 1] == (n, y));
            }
        }
        l1
    }
}

/// The heights of a spine always exist.
proof fn lemma_pin_heights(pins: Seq<(usize, i32)>, n: usize)
    ensures
        lists_heights(pin_heights(pins, n), pins, n),
{
    let l = lemma_heights_upto(pins, n, pins.len() as int);
    assert(pins.take(pins.len() as int) =~= pins);
    assert(lists_heights(l, pins, n));
}

/// Later elements only add to what the layout holds.
proof fn lemma_upto_grows(cs: Seq<NetlistComponentView>, nodes: Seq<usize>, j: int, k: int)
    requires
        0 <= j <= k,
    ensures
        layout_upto(cs, nodes, j).components.len() <= layout_upto(cs, nodes, k).components.len(),
        layout_upto(cs, nodes, j).wires.len() <= layout_upto(cs, nodes, k).wires.len(),
        layout_upto(cs, nodes, j).pins.len() <= layout_upto(cs, nodes, k).pins.len(),
        forall|i: int|
            0 <= i < layout_upto(cs, nodes, j).components.len() ==> layout_upto(
                cs,
                nodes,
                k,
            ).components[i] == layout_upto(cs, nodes, j).components[i],
        forall|i: int|
            0 <= i < layout_upto(cs, nodes, j).wires.len() ==> layout_upto(cs, nodes, k).wires[i]
                == layout_upto(cs, nodes, j).wires[i],
        forall|i: int|
            0 <= i < layout_upto(cs, nodes, j).pins.len() ==> layout_upto(cs, nodes, k).pins[i]
                == layout_upto(cs, nodes, j).pins[i],
        layout_upto(cs, nodes, j).spans.len() <= layout_upto(cs, nodes, k).spans.len(),
        forall|i: int|
            0 <= i < layout_upto(cs, nodes, j).spans.len() ==> layout_upto(cs, nodes, k).spans[i]
                == layout_upto(cs, nodes, j).spans[i],
    decreases k - j,
{
    if j < k {
        lemma_upto_grows(cs, nodes, j, k - 1);
        let st = layout_upto(cs, nodes, k - 1);
        assert(layout_upto(cs, nodes, k) == place(st, nodes, cs[k - 1]));
    }
}

/// Where element `k` of `cs` stands in the drawing: the half-column and row
/// that placing it picks.
pub open spec fn element_slot(cs: Seq<NetlistComponentView>, k: int) -> (int, int) {
    let nodes = node_list(cs);
    let st = layout_upto(cs, nodes, k);
    let (s, e, m) = span(col_of(nodes, cs[k].node_a), col_of(nodes, cs[k].node_b));
    (3 + m * 3, 3 + (free_row(st.spans, st.rows, s, e, 0) as int) * 10)
}

/// The node of element `k` on its first terminal (`first`) or its second.
pub open spec fn terminal_node(cs: Seq<NetlistComponentView>, k: int, first: bool) -> usize {
    if first {
        cs[k].node_a
    } else {
        cs[k].node_b
    }
}

/// The pin that stands for that terminal: the first at the top of the
/// element, the second four units lower.
pub open spec fn terminal_pin(cs: Seq<NetlistComponentView>, k: int, first: bool) -> GridPt {
    let (x, y) = element_slot(cs, k);
    GridPt(x as i32, (if first {
        y
    } else {
        y + 4
    }) as i32)
}

/// Drawing element `k` (not on ground at both ends) gives a component with
/// both terminal pins; a terminal on a node other than ground is wired to its
/// spine, whose pin list records its height; one on ground gets a ground
/// symbol.
proof fn lemma_element_drawn(cs: Seq<NetlistComponentView>, k: int, first: bool)
    requires
        0 <= k < cs.len(),
        cs[k].node_a != 0 || cs[k].node_b != 0,
    ensures
        ({
            let nodes = node_list(cs);
            let st = layout_upto(cs, nodes, k + 1);
            let p = terminal_pin(cs, k, first);
            let n = terminal_node(cs, k, first);
            let sp = GridPt((3 + col_of(nodes, n) * 6) as i32, p.1);
            &&& exists|g: int|
                0 <= g < st.components.len() && st.components[g].p1 == terminal_pin(cs, k, true)
                    && st.components[g].p2 == terminal_pin(cs, k, false)
            &&& n != 0 ==> (p == sp || st.wires.contains(Wire { p1: p, p2: sp }))
                && st.pins.contains((n, p.1))
            &&& n == 0 ==> exists|g: int|
                0 <= g < st.components.len() && st.components[g].kind == CompKind::Ground
                    && st.components[g].p1 == p
        }),
{
    let nodes = node_list(cs);
    let st0 = layout_upto(cs, nodes, k);
    let c = cs[k];
    let ca = col_of(nodes, c.node_a);
    let cb = col_of(nodes, c.node_b);
    assert(layout_upto(cs, nodes, k + 1) == place(st0, nodes, c));
    if c.node_a != 0 {
        assert(ca >= 0) by {
            lemma_node_list(cs);
            assert(uses_node(cs, cs.len() as int, c.node_a));
            assert(nodes.contains(c.node_a));
        }
    }
    if c.node_b != 0 {
        assert(cb >= 0) by {
            lemma_node_list(cs);
            assert(uses_node(cs, cs.len() as int, c.node_b));
            assert(nodes.contains(c.node_b));
        }
    }
    assert(!(ca < 0 && cb < 0));
    let (x, y) = element_slot(cs, k);
    let (s, e, m) = span(ca, cb);
    let r = free_row(st0.spans, st0.rows, s, e, 0);
    assert(x == 3 + m * 3 && y == 3 + (r as int) * 10);
    let comp = ComponentView {
        kind: c.kind,
        p1: GridPt(x as i32, y as i32),
        p2: GridPt(x as i32, (y + 4) as i32),
        val: c.val,
    };
    let st1 = LayoutView {
        components: st0.components.push(comp),
        spans: st0.spans.push((r as usize, s as i32, e as i32)),
        rows: if r == st0.rows {
            st0.rows + 1
        } else {
            st0.rows
        },
        ..st0
    };
    let st2 = attach(st1, c.node_a, ca, x, y);
    let st3 = attach(st2, c.node_b, cb, x, y + 4);
    assert(place(st0, nodes, c) == st3);
    let g0 = st0.components.len() as int;
    assert(st1.components[g0] == comp);
    assert(st2.components[g0] == comp);
    assert(st3.components[g0] == comp);
    if first {
        if c.node_a != 0 {
            let w = Wire {
                p1: GridPt(x as i32, y as i32),
                p2: GridPt((3 + ca * 6) as i32, y as i32),
            };
            if 3 + ca * 6 != x {
                assert(st2.wires[st1.wires.len() as int] == w);
                assert(st3.wires[st1.wires.len() as int] == w);
                assert(st3.wires.contains(w));
            }
            assert(st2.pins[st1.pins.len() as int] == (c.node_a, y as i32));
            assert(st3.pins[st1.pins.len() as int] == (c.node_a, y as i32));
            assert(st3.pins.contains((c.node_a, y as i32)));
        } else {
            let gnd = st2.components.len() - 1;
            assert(st2.components[gnd].kind == CompKind::Ground);
            assert(st3.components[gnd] == st2.components[gnd]);
        }
    } else {
        if c.node_b != 0 {
            let w = Wire {
                p1: GridPt(x as i32, (y + 4) as i32),
                p2: GridPt((3 + cb * 6) as i32, (y + 4) as i32),
            };
            if 3 + cb * 6 != x {
                assert(st3.wires[st2.wires.len() as int] == w);
                assert(st3.wires.contains(w));
            }
            assert(st3.pins[st2.pins.len() as int] == (c.node_b, (y + 4) as i32));
            assert(st3.pins.contains((c.node_b, (y + 4) as i32)));
        } else {
            let gnd = st3.components.len() - 1;
            assert(st3.components[gnd].kind == CompKind::Ground);
        }
    }
}

} // verus!

verus! {

// ─── Terminals that share a node ─────────────────────────────────────────────

proof fn lemma_wire_linked(w: Seq<Wire>, i: int, k: nat)
    requires
        0 <= i < k <= w.len(),
    ensures
        linked(w, k, w[i].p1, w[i].p2),
    decreases k,
{
    if k == i + 1 {
        lemma_linked_refl(w, i as nat, w[i].p1);
        lemma_linked_refl(w, i as nat, w[i].p2);
    } else {
        lemma_wire_linked(w, i, (k - 1) as nat);
    }
}

proof fn lemma_spine_prefix(nodes: Seq<usize>, pins: Seq<(usize, i32)>, a: int, b: int)
    requires
        0 <= a <= b,
    ensures
        spine_wires(nodes, pins, a).len() <= spine_wires(nodes, pins, b).len(),
        forall|i: int|
            0 <= i < spine_wires(nodes, pins, a).len() ==> spine_wires(nodes, pins, b)[i]
                == spine_wires(nodes, pins, a)[i],
    decreases b - a,
{
    if a < b {
        lemma_spine_prefix(nodes, pins, a, b - 1);
    }
}

/// Neighbouring spine heights are wired together, and so are any two.
proof fn lemma_spine_chain(w: Seq<Wire>, off: int, x: int, ys: Seq<i32>, i: int, j: int)
    requires
        0 <= i <= j < ys.len(),
        0 <= off,
        off + spine_segments(x, ys).len() <= w.len(),
        forall|q: int|
            0 <= q < spine_segments(x, ys).len() ==> w[off + q] == #[trigger] spine_segments(
                x,
                ys,
            )[q],
    ensures
        linked(w, w.len(), GridPt(x as i32, ys[i]), GridPt(x as i32, ys[j])),
    decreases j - i,
{
    if i == j {
        lemma_linked_refl(w, w.len(), GridPt(x as i32, ys[i]));
    } else {
        lemma_spine_chain(w, off, x, ys, i, j - 1);
        let q = j - 1;
        assert(w[off + q] == spine_segments(x, ys)[q]);
        lemma_wire_linked(w, off + q, w.len());
        lemma_linked_trans(
            w,
            w.len(),
            GridPt(x as i32, ys[i]),
            GridPt(x as i32, ys[q]),
            GridPt(x as i32, ys[j]),
        );
    }
}

/// A terminal on a node other than ground is wired to the point of its
/// spine at its height, a height that the spine passes through.
proof fn lemma_terminal_to_spine(cs: Seq<NetlistComponentView>, k: int, first: bool)
    requires
        0 <= k < cs.len(),
        terminal_node(cs, k, first) != 0,
    ensures
        ({
            let nodes = node_list(cs);
            let lay = layout_upto(cs, nodes, cs.len() as int);
            let w = schematic_layout(cs).1;
            let n = terminal_node(cs, k, first);
            let p = terminal_pin(cs, k, first);
            &&& 0 <= col_of(nodes, n) < nodes.len()
            &&& nodes[col_of(nodes, n)] == n
            &&& linked(w, w.len(), p, GridPt((3 + col_of(nodes, n) * 6) as i32, p.1))
            &&& pin_heights(lay.pins, n).contains(p.1)
        }),
{
    let nodes = node_list(cs);
    let lay = layout_upto(cs, nodes, cs.len() as int);
    let w = schematic_layout(cs).1;
    let n = terminal_node(cs, k, first);
    let p = terminal_pin(cs, k, first);
    lemma_node_list(cs);
    assert(uses_node(cs, cs.len() as int, n));
    assert(nodes.contains(n));
    let c = col_of(nodes, n);
    assert(0 <= c < nodes.len() && nodes[c] == n);
    let sp = GridPt((3 + c * 6) as i32, p.1);
    lemma_element_drawn(cs, k, first);
    lemma_upto_grows(cs, nodes, k + 1, cs.len() as int);
    let st = layout_upto(cs, nodes, k + 1);
    assert(w == lay.wires + spine_wires(nodes, lay.pins, nodes.len() as int));
    if p == sp {
        lemma_linked_refl(w, w.len(), p);
    } else {
        let wi = Wire { p1: p, p2: sp };
        assert(st.wires.contains(wi));
        let i = choose|i: int| 0 <= i < st.wires.len() && st.wires[i] == wi;
        assert(lay.wires[i] == wi);
        assert(w[i] == wi);
        lemma_wire_linked(w, i, w.len());
    }
    assert(st.pins.contains((n, p.1)));
    let i = choose|i: int| 0 <= i < st.pins.len() && st.pins[i] == (n, p.1);
    assert(lay.pins[i] == (n, p.1));
    assert(lay.pins.contains((n, p.1)));
    lemma_pin_heights(lay.pins, n);
}

/// In the drawing of netlist elements, two terminals that the elements join
/// at one node other than ground are wired together: each node's spine
/// passes through the pins of all its terminals.
pub proof fn law_drawn_node_wired(
    cs: Seq<NetlistComponentView>,
    k1: int,
    first1: bool,
    k2: int,
    first2: bool,
)
    requires
        0 <= k1 < cs.len(),
        0 <= k2 < cs.len(),
        terminal_node(cs, k1, first1) == terminal_node(cs, k2, first2),
        terminal_node(cs, k1, first1) != 0,
    ensures
        linked(
            schematic_layout(cs).1,
            schematic_layout(cs).1.len(),
            terminal_pin(cs, k1, first1),
            terminal_pin(cs, k2, first2),
        ),
{
    let nodes = node_list(cs);
    let lay = layout_upto(cs, nodes, cs.len() as int);
    let w = schematic_layout(cs).1;
    let n = terminal_node(cs, k1, first1);
    let p = terminal_pin(cs, k1, first1);
    let q = terminal_pin(cs, k2, first2);
    lemma_terminal_to_spine(cs, k1, first1);
    lemma_terminal_to_spine(cs, k2, first2);
    let c = col_of(nodes, n);
    let x = 3 + c * 6;
    let ys = pin_heights(lay.pins, n);
    lemma_pin_heights(lay.pins, n);
    let ip = choose|i: int| 0 <= i < ys.len() && ys[i] == p.1;
    let iq = choose|i: int| 0 <= i < ys.len() && ys[i] == q.1;
    // The segments of column `c` within all the wires.
    let base = lay.wires.len() as int;
    let off = base + spine_wires(nodes, lay.pins, c).len();
    let segs = spine_segments(x, ys);
    lemma_spine_prefix(nodes, lay.pins, c + 1, nodes.len() as int);
    assert(spine_wires(nodes, lay.pins, c + 1) == spine_wires(nodes, lay.pins, c) + segs);
    assert forall|r: int| 0 <= r < segs.len() implies w[off + r] == #[trigger] segs[r] by {
        let all = spine_wires(nodes, lay.pins, nodes.len() as int);
        let idx = spine_wires(nodes, lay.pins, c).len() + r;
        assert(all[idx] == spine_wires(nodes, lay.pins, c + 1)[idx]);
        assert(w[base + idx] == all[idx]);
    }
    let sp = GridPt(x as i32, p.1);
    let sq = GridPt(x as i32, q.1);
    if ip <= iq {
        lemma_spine_chain(w, off, x, ys, ip, iq);
    } else {
        lemma_spine_chain(w, off, x, ys, iq, ip);
        lemma_linked_sym(w, w.len(), sq, sp);
    }
    lemma_linked_sym(w, w.len(), q, sq);
    lemma_linked_trans(w, w.len(), p, sp, sq);
    lemma_linked_trans(w, w.len(), p, sq, q);
}

/// A re-export of an imported netlist keeps together what the netlist
/// joined: two element terminals on one node get one node number, and
/// terminals on ground get node 0. (Elements with both ends on ground are not
/// drawn.)
pub proof fn law_reexport_keeps_shared_nodes(
    s: SchematicView,
    text: Seq<char>,
    k1: int,
    first1: bool,
    k2: int,
    first2: bool,
)
    requires
        0 <= k1 < netlist_components(lines(text)).len(),
        0 <= k2 < netlist_components(lines(text)).len(),
        terminal_node(netlist_components(lines(text)), k1, first1) == terminal_node(
            netlist_components(lines(text)),
            k2,
            first2,
        ),
        netlist_components(lines(text))[k1].node_a != 0 || netlist_components(
            lines(text),
        )[k1].node_b != 0,
        netlist_components(lines(text))[k2].node_a != 0 || netlist_components(
            lines(text),
        )[k2].node_b != 0,
    ensures
        pin_node(
            imported_schematic(s, text),
            terminal_pin(netlist_components(lines(text)), k1, first1),
        ) == pin_node(
            imported_schematic(s, text),
            terminal_pin(netlist_components(lines(text)), k2, first2),
        ),
        terminal_node(netlist_components(lines(text)), k1, first1) == 0 ==> pin_node(
            imported_schematic(s, text),
            terminal_pin(netlist_components(lines(text)), k1, first1),
        ) == 0,
{
    let cs = netlist_components(lines(text));
    let s2 = imported_schematic(s, text);
    let nodes = node_list(cs);
    let lay = layout_upto(cs, nodes, cs.len() as int);
    let p = terminal_pin(cs, k1, first1);
    let q = terminal_pin(cs, k2, first2);
    assert(s2.components == lay.components);
    assert(s2.wires == schematic_layout(cs).1);
    lemma_endpoint(cs, s2, k1, first1);
    lemma_endpoint(cs, s2, k2, first2);
    if terminal_node(cs, k1, first1) != 0 {
        law_drawn_node_wired(cs, k1, first1, k2, first2);
        assert(same_net(s2, p, q));
        law_netlist_nodes(s2, p, q);
    } else {
        lemma_ground_pin(cs, s2, k1, first1);
        lemma_ground_pin(cs, s2, k2, first2);
        law_netlist_nodes(s2, p, q);
    }
}

/// A drawn terminal's pin is a pin of the imported schematic.
proof fn lemma_endpoint(cs: Seq<NetlistComponentView>, s2: SchematicView, k: int, first: bool)
    requires
        0 <= k < cs.len(),
        cs[k].node_a != 0 || cs[k].node_b != 0,
        s2.components == layout_upto(cs, node_list(cs), cs.len() as int).components,
    ensures
        endpoints(s2).contains(terminal_pin(cs, k, first)),
{
    let nodes = node_list(cs);
    lemma_element_drawn(cs, k, first);
    lemma_upto_grows(cs, nodes, k + 1, cs.len() as int);
    let st = layout_upto(cs, nodes, k + 1);
    let g = choose|g: int|
        0 <= g < st.components.len() && st.components[g].p1 == terminal_pin(cs, k, true)
            && st.components[g].p2 == terminal_pin(cs, k, false);
    assert(s2.components[g] == st.components[g]);
    let e = endpoints(s2);
    if first {
        assert(e[2 * g] == s2.components[g].p1);
        assert(e.contains(e[2 * g]));
    } else {
        assert(e[2 * g + 1] == s2.components[g].p2);
        assert(e.contains(e[2 * g + 1]));
    }
}

/// A drawn terminal on ground touches a ground symbol.
proof fn lemma_ground_pin(cs: Seq<NetlistComponentView>, s2: SchematicView, k: int, first: bool)
    requires
        0 <= k < cs.len(),
        cs[k].node_a != 0 || cs[k].node_b != 0,
        terminal_node(cs, k, first) == 0,
        s2.components == layout_upto(cs, node_list(cs), cs.len() as int).components,
    ensures
        grounded(s2, terminal_pin(cs, k, first)),
{
    let nodes = node_list(cs);
    let p = terminal_pin(cs, k, first);
    lemma_element_drawn(cs, k, first);
    lemma_upto_grows(cs, nodes, k + 1, cs.len() as int);
    let st = layout_upto(cs, nodes, k + 1);
    let g = choose|g: int|
        0 <= g < st.components.len() && st.components[g].kind == CompKind::Ground
            && st.components[g].p1 == p;
    assert(s2.components[g] == st.components[g]);
    lemma_linked_refl(s2.wires, s2.wires.len(), p);
    assert(same_net(s2, p, s2.components[g].p1));
}

} // verus!

verus! {

// ─── Terminals on different nodes ────────────────────────────────────────────

/// Element `k` is drawn: it is not on ground at both ends.
pub open spec fn drawn(cs: Seq<NetlistComponentView>, k: int) -> bool {
    cs[k].node_a != 0 || cs[k].node_b != 0
}

proof fn lemma_columns(cs: Seq<NetlistComponentView>, k: int)
    requires
        0 <= k < cs.len(),
    ensures
        ({
            let nodes = node_list(cs);
            &&& cs[k].node_a == 0 ==> col_of(nodes, cs[k].node_a) == -1
            &&& cs[k].node_a != 0 ==> 0 <= col_of(nodes, cs[k].node_a) < nodes.len() && nodes[col_of(
                nodes,
                cs[k].node_a,
            )] == cs[k].node_a
            &&& cs[k].node_b == 0 ==> col_of(nodes, cs[k].node_b) == -1
            &&& cs[k].node_b != 0 ==> 0 <= col_of(nodes, cs[k].node_b) < nodes.len() && nodes[col_of(
                nodes,
                cs[k].node_b,
            )] == cs[k].node_b
            &&& nodes.len() <= 2 * cs.len()
        }),
{
    let nodes = node_list(cs);
    lemma_node_list(cs);
    if cs[k].node_a != 0 {
        assert(uses_node(cs, cs.len() as int, cs[k].node_a));
        assert(nodes.contains(cs[k].node_a));
    }
    if cs[k].node_b != 0 {
        assert(uses_node(cs, cs.len() as int, cs[k].node_b));
        assert(nodes.contains(cs[k].node_b));
    }
}

/// The slot of a drawn element: an odd half-column inside (or just right of)
/// its span, a row below the limit, and the span recorded for it.
proof fn lemma_slot(cs: Seq<NetlistComponentView>, k: int)
    requires
        cs.len() <= IMPORT_LIMIT,
        0 <= k < cs.len(),
        drawn(cs, k),
    ensures
        ({
            let nodes = node_list(cs);
            let st = layout_upto(cs, nodes, k);
            let (s, e, m) = span(col_of(nodes, cs[k].node_a), col_of(nodes, cs[k].node_b));
            let r = free_row(st.spans, st.rows, s, e, 0);
            &&& element_slot(cs, k) == (3 + m * 3, 3 + (r as int) * 10)
            &&& m % 2 == 1
            &&& 0 <= s <= m - 1 <= e < 4 * IMPORT_LIMIT
            &&& r < IMPORT_LIMIT
            &&& layout_upto(cs, nodes, k + 1).spans == st.spans.push(
                (r as usize, s as i32, e as i32),
            )
        }),
{
    let nodes = node_list(cs);
    lemma_columns(cs, k);
    lemma_node_list(cs);
    let c = cs[k];
    let ca = col_of(nodes, c.node_a);
    let cb = col_of(nodes, c.node_b);
    law_rows_disjoint(cs, nodes, k);
    let st = layout_upto(cs, nodes, k);
    let (s, e, m) = span(ca, cb);
    lemma_free_row(st.spans, st.rows, s, e, 0);
    assert(layout_upto(cs, nodes, k + 1) == place(st, nodes, c));
}

proof fn lemma_pins_apart_ordered(cs: Seq<NetlistComponentView>, j: int, f: bool, k: int, g: bool)
    requires
        cs.len() <= IMPORT_LIMIT,
        0 <= j < k < cs.len(),
        drawn(cs, j),
        drawn(cs, k),
    ensures
        terminal_pin(cs, j, f) != terminal_pin(cs, k, g),
{
    let nodes = node_list(cs);
    let n = cs.len() as int;
    lemma_columns(cs, j);
    lemma_slot(cs, j);
    lemma_slot(cs, k);
    if terminal_pin(cs, j, f) == terminal_pin(cs, k, g) {
        let stj = layout_upto(cs, nodes, j);
        let stk = layout_upto(cs, nodes, k);
        let (sj, ej, mj) = span(col_of(nodes, cs[j].node_a), col_of(nodes, cs[j].node_b));
        let (sk, ek, mk) = span(col_of(nodes, cs[k].node_a), col_of(nodes, cs[k].node_b));
        let rj = free_row(stj.spans, stj.rows, sj, ej, 0);
        let rk = free_row(stk.spans, stk.rows, sk, ek, 0);
        let yj: int = 3 + (rj as int) * 10 + if f {
            0int
        } else {
            4int
        };
        let yk: int = 3 + (rk as int) * 10 + if g {
            0int
        } else {
            4int
        };
        assert(terminal_pin(cs, j, f) == GridPt((3 + mj * 3) as i32, yj as i32));
        assert(terminal_pin(cs, k, g) == GridPt((3 + mk * 3) as i32, yk as i32));
        assert(mj == mk);
        assert(yj == yk);
        assert(rj == rk);
        lemma_node_list(cs);
        law_rows_disjoint(cs, nodes, n);
        lemma_upto_grows(cs, nodes, j + 1, k);
        lemma_upto_grows(cs, nodes, k + 1, n);
        lemma_upto_grows(cs, nodes, j + 1, n);
        let fin = layout_upto(cs, nodes, n);
        let a = stj.spans.len() as int;
        let b = stk.spans.len() as int;
        assert(layout_upto(cs, nodes, j + 1).spans[a] == (rj as usize, sj as i32, ej as i32));
        assert(fin.spans[a] == (rj as usize, sj as i32, ej as i32));
        assert(fin.spans[b] == (rk as usize, sk as i32, ek as i32));
        assert(a < b);
        assert(!collides(fin.spans[b], fin.spans[a].0 as int, fin.spans[a].1 as int, fin.spans[a].2 as int));
    }
}

/// Distinct terminals of drawn elements have distinct pins.
proof fn lemma_pins_apart(cs: Seq<NetlistComponentView>, j: int, f: bool, k: int, g: bool)
    requires
        cs.len() <= IMPORT_LIMIT,
        0 <= j < cs.len(),
        0 <= k < cs.len(),
        drawn(cs, j),
        drawn(cs, k),
        j != k || f != g,
    ensures
        terminal_pin(cs, j, f) != terminal_pin(cs, k, g),
{
    if j < k {
        lemma_pins_apart_ordered(cs, j, f, k, g);
    } else if k < j {
        lemma_pins_apart_ordered(cs, k, g, j, f);
    } else {
        lemma_slot(cs, k);
    }
}

/// The node a point of the drawing belongs to: its spine's node for a point
/// on a spine column, its terminal's node for a terminal's pin, -1 otherwise.
spec fn owner(cs: Seq<NetlistComponentView>, p: GridPt) -> int {
    let nodes = node_list(cs);
    let x = p.0 as int;
    if x >= 3 && (x - 3) % 6 == 0 && (x - 3) / 6 < nodes.len() {
        nodes[(x - 3) / 6] as int
    } else if exists|k: int, f: bool|
        0 <= k < cs.len() && drawn(cs, k) && #[trigger] terminal_pin(cs, k, f) == p {
        let (k, f) = choose|k: int, f: bool|
            0 <= k < cs.len() && drawn(cs, k) && #[trigger] terminal_pin(cs, k, f) == p;
        terminal_node(cs, k, f) as int
    } else {
        -1
    }
}

proof fn lemma_owner_terminal(cs: Seq<NetlistComponentView>, k: int, f: bool)
    requires
        cs.len() <= IMPORT_LIMIT,
        0 <= k < cs.len(),
        drawn(cs, k),
    ensures
        owner(cs, terminal_pin(cs, k, f)) == terminal_node(cs, k, f) as int,
{
    let nodes = node_list(cs);
    lemma_slot(cs, k);
    let p = terminal_pin(cs, k, f);
    let st = layout_upto(cs, nodes, k);
    let (s, e, m) = span(col_of(nodes, cs[k].node_a), col_of(nodes, cs[k].node_b));
    let t = m / 2;
    assert(m == 2 * t + 1);
    assert(p.0 as int == 3 + m * 3);
    assert((p.0 as int - 3) % 6 == 3) by {
        assert(p.0 as int - 3 == 6 * t + 3);
    }
    assert(exists|k2: int, f2: bool|
        0 <= k2 < cs.len() && drawn(cs, k2) && #[trigger] terminal_pin(cs, k2, f2) == p);
    let (k2, f2) = choose|k2: int, f2: bool|
        0 <= k2 < cs.len() && drawn(cs, k2) && #[trigger] terminal_pin(cs, k2, f2) == p;
    if k2 != k || f2 != f {
        lemma_pins_apart(cs, k2, f2, k, f);
    }
}

proof fn lemma_owner_spine(cs: Seq<NetlistComponentView>, c: int, y: i32)
    requires
        cs.len() <= IMPORT_LIMIT,
        0 <= c < node_list(cs).len(),
    ensures
        owner(cs, GridPt((3 + c * 6) as i32, y)) == node_list(cs)[c] as int,
{
    if cs.len() > 0 {
        lemma_columns(cs, 0);
    } else {
        lemma_node_list(cs);
    }
    let p = GridPt((3 + c * 6) as i32, y);
    assert(p.0 as int == 3 + c * 6);
    assert((p.0 as int - 3) % 6 == 0 && (p.0 as int - 3) / 6 == c) by {
        assert(p.0 as int - 3 == 6 * c);
    }
}

/// The wire from terminal `first` of element `j` to its node's spine.
spec fn terminal_wire(cs: Seq<NetlistComponentView>, j: int, first: bool) -> Wire {
    Wire {
        p1: terminal_pin(cs, j, first),
        p2: GridPt(
            (3 + col_of(node_list(cs), terminal_node(cs, j, first)) * 6) as i32,
            terminal_pin(cs, j, first).1,
        ),
    }
}

/// `w` is the spine wire of a terminal, off ground, of one of the first `k`
/// drawn elements.
spec fn wire_of_terminal(cs: Seq<NetlistComponentView>, k: int, w: Wire) -> bool {
    exists|j: int, f: bool|
        0 <= j < k && drawn(cs, j) && terminal_node(cs, j, f) != 0 && w == #[trigger] terminal_wire(
            cs,
            j,
            f,
        )
}

/// `p` is the pin of a terminal on ground of one of the first `k` drawn
/// elements.
spec fn grounded_terminal(cs: Seq<NetlistComponentView>, k: int, p: GridPt) -> bool {
    exists|j: int, f: bool|
        0 <= j < k && drawn(cs, j) && terminal_node(cs, j, f) == 0 && p == #[trigger] terminal_pin(
            cs,
            j,
            f,
        )
}

/// What the drawing of the first `k` elements holds: every wire runs from a
/// terminal on a node other than ground to that node's spine, and every
/// ground symbol stands on a terminal on ground.
proof fn lemma_upto_parts(cs: Seq<NetlistComponentView>, k: int)
    requires
        0 <= k <= cs.len(),
        forall|i: int| 0 <= i < cs.len() ==> cs[i].kind != CompKind::Ground,
    ensures
        forall|i: int|
            0 <= i < layout_upto(cs, node_list(cs), k).wires.len() ==> wire_of_terminal(
                cs,
                k,
                #[trigger] layout_upto(cs, node_list(cs), k).wires[i],
            ),
        forall|g: int|
            0 <= g < layout_upto(cs, node_list(cs), k).components.len() && (#[trigger] layout_upto(
                cs,
                node_list(cs),
                k,
            ).components[g]).kind == CompKind::Ground ==> grounded_terminal(
                cs,
                k,
                layout_upto(cs, node_list(cs), k).components[g].p1,
            ),
    decreases k,
{
    if k > 0 {
        lemma_upto_parts(cs, k - 1);
        let nodes = node_list(cs);
        let st0 = layout_upto(cs, nodes, k - 1);
        let c = cs[k - 1];
        lemma_columns(cs, k - 1);
        let ca = col_of(nodes, c.node_a);
        let cb = col_of(nodes, c.node_b);
        let stk = layout_upto(cs, nodes, k);
        assert(stk == place(st0, nodes, c));
        assert forall|w: Wire| wire_of_terminal(cs, k - 1, w) implies wire_of_terminal(cs, k, w) by {
            let (j, f) = choose|j: int, f: bool|
                0 <= j < k - 1 && drawn(cs, j) && terminal_node(cs, j, f) != 0 && w
                    == #[trigger] terminal_wire(cs, j, f);
            assert(w == terminal_wire(cs, j, f));
        }
        assert forall|p: GridPt| grounded_terminal(cs, k - 1, p) implies grounded_terminal(
            cs,
            k,
            p,
        ) by {
            let (j, f) = choose|j: int, f: bool|
                0 <= j < k - 1 && drawn(cs, j) && terminal_node(cs, j, f) == 0 && p
                    == #[trigger] terminal_pin(cs, j, f);
            assert(p == terminal_pin(cs, j, f));
        }
        if !(ca < 0 && cb < 0) {
            let (x, y) = element_slot(cs, k - 1);
            let (s, e, m) = span(ca, cb);
            let r = free_row(st0.spans, st0.rows, s, e, 0);
            let comp = ComponentView {
                kind: c.kind,
                p1: GridPt(x as i32, y as i32),
                p2: GridPt(x as i32, (y + 4) as i32),
                val: c.val,
            };
            let st1 = LayoutView {
                components: st0.components.push(comp),
                spans: st0.spans.push((r as usize, s as i32, e as i32)),
                rows: if r == st0.rows {
                    st0.rows + 1
                } else {
                    st0.rows
                },
                ..st0
            };
            let st2 = attach(st1, c.node_a, ca, x, y);
            let st3 = attach(st2, c.node_b, cb, x, y + 4);
            assert(stk == st3);
            let pa = terminal_pin(cs, k - 1, true);
            let pb = terminal_pin(cs, k - 1, false);
            assert(pa == GridPt(x as i32, y as i32));
            assert(pb == GridPt(x as i32, (y + 4) as i32));
            assert forall|i: int| 0 <= i < st3.wires.len() implies wire_of_terminal(
                cs,
                k,
                #[trigger] st3.wires[i],
            ) by {
                if i < st0.wires.len() {
                    assert(st3.wires[i] == st0.wires[i]);
                    assert(wire_of_terminal(cs, k - 1, st0.wires[i]));
                } else if i < st2.wires.len() {
                    assert(st3.wires[i] == st2.wires[i]);
                    assert(st2.wires[i] == terminal_wire(cs, k - 1, true));
                } else {
                    assert(st3.wires[i] == terminal_wire(cs, k - 1, false));
                }
            }
            assert forall|g: int|
                0 <= g < st3.components.len() && (#[trigger] st3.components[g]).kind
                    == CompKind::Ground implies grounded_terminal(cs, k, st3.components[g].p1) by {
                if g < st0.components.len() {
                    assert(st3.components[g] == st0.components[g]);
                    assert(grounded_terminal(cs, k - 1, st0.components[g].p1));
                } else if g == st0.components.len() {
                    assert(st3.components[g] == comp);
                } else if g < st2.components.len() {
                    assert(st3.components[g] == st2.components[g]);
                    assert(st2.components[g].p1 == terminal_pin(cs, k - 1, true));
                } else {
                    assert(st3.components[g].p1 == terminal_pin(cs, k - 1, false));
                }
            }
        } else {
            assert forall|i: int| 0 <= i < stk.wires.len() implies wire_of_terminal(
                cs,
                k,
                #[trigger] stk.wires[i],
            ) by {
                assert(wire_of_terminal(cs, k - 1, st0.wires[i]));
            }
            assert forall|g: int|
                0 <= g < stk.components.len() && (#[trigger] stk.components[g]).kind
                    == CompKind::Ground implies grounded_terminal(cs, k, stk.components[g].p1) by {
                assert(grounded_terminal(cs, k - 1, st0.components[g].p1));
            }
        }
    }
}

/// The x coordinate of spine column `c`.
spec fn spine_x(c: int) -> i32 {
    (3 + c * 6) as i32
}

/// Every spine wire runs along one spine column.
/// Wire `w` runs along one of the first `k` spine columns.
spec fn along_spine(w: Wire, k: int) -> bool {
    exists|c: int| 0 <= c < k && w.p1.0 == #[trigger] spine_x(c) && w.p2.0 == spine_x(c)
}

proof fn lemma_spine_parts(nodes: Seq<usize>, pins: Seq<(usize, i32)>, k: int)
    requires
        0 <= k,
    ensures
        forall|i: int|
            0 <= i < spine_wires(nodes, pins, k).len() ==> along_spine(
                #[trigger] spine_wires(nodes, pins, k)[i],
                k,
            ),
    decreases k,
{
    if k > 0 {
        lemma_spine_parts(nodes, pins, k - 1);
        let prev = spine_wires(nodes, pins, k - 1);
        let segs = spine_segments(3 + (k - 1) * 6, pin_heights(pins, nodes[k - 1]));
        let all = spine_wires(nodes, pins, k);
        assert(all == prev + segs);
        assert forall|i: int| 0 <= i < all.len() implies along_spine(#[trigger] all[i], k) by {
            if i < prev.len() {
                assert(all[i] == prev[i]);
                assert(along_spine(prev[i], k - 1));
                let c = choose|c: int|
                    0 <= c < k - 1 && prev[i].p1.0 == #[trigger] spine_x(c) && prev[i].p2.0
                        == spine_x(c);
                assert(0 <= c < k && all[i].p1.0 == spine_x(c) && all[i].p2.0 == spine_x(c));
            } else {
                let r = i - prev.len();
                assert(all[i] == segs[r]);
                assert(segs[r].p1.0 == spine_x(k - 1));
                assert(segs[r].p2.0 == spine_x(k - 1));
            }
        }
    }
}

/// The elements of netlist lines are never ground symbols.
proof fn lemma_no_ground_elements(ls: Seq<Seq<char>>)
    ensures
        forall|i: int|
            0 <= i < netlist_components(ls).len() ==> netlist_components(ls)[i].kind
                != CompKind::Ground,
    decreases ls.len(),
{
    if ls.len() > 0 {
        lemma_no_ground_elements(ls.drop_last());
    }
}

/// Both ends of every wire of the drawing belong to one node.
proof fn lemma_wires_owned(cs: Seq<NetlistComponentView>)
    requires
        cs.len() <= IMPORT_LIMIT,
        forall|i: int| 0 <= i < cs.len() ==> cs[i].kind != CompKind::Ground,
    ensures
        forall|i: int|
            0 <= i < schematic_layout(cs).1.len() ==> owner(cs, schematic_layout(cs).1[i].p1)
                == owner(cs, #[trigger] schematic_layout(cs).1[i].p2),
{
    let nodes = node_list(cs);
    let lay = layout_upto(cs, nodes, cs.len() as int);
    let sp = spine_wires(nodes, lay.pins, nodes.len() as int);
    let w = schematic_layout(cs).1;
    assert(w == lay.wires + sp);
    lemma_upto_parts(cs, cs.len() as int);
    lemma_spine_parts(nodes, lay.pins, nodes.len() as int);
    assert forall|i: int| 0 <= i < w.len() implies owner(cs, w[i].p1) == owner(
        cs,
        #[trigger] w[i].p2,
    ) by {
        if i < lay.wires.len() {
            assert(w[i] == lay.wires[i]);
            assert(wire_of_terminal(cs, cs.len() as int, lay.wires[i]));
            let (j, f) = choose|j: int, f: bool|
                0 <= j < cs.len() && drawn(cs, j) && terminal_node(cs, j, f) != 0 && lay.wires[i]
                    == #[trigger] terminal_wire(cs, j, f);
            lemma_owner_terminal(cs, j, f);
            lemma_columns(cs, j);
            lemma_owner_spine(cs, col_of(nodes, terminal_node(cs, j, f)), terminal_pin(cs, j, f).1);
        } else {
            let q = i - lay.wires.len();
            assert(w[i] == sp[q]);
            assert(along_spine(sp[q], nodes.len() as int));
            let c = choose|c: int|
                0 <= c < nodes.len() && sp[q].p1.0 == #[trigger] spine_x(c) && sp[q].p2.0 == spine_x(
                    c,
                );
            lemma_owner_spine(cs, c, sp[q].p1.1);
            lemma_owner_spine(cs, c, sp[q].p2.1);
            assert(sp[q].p1 == GridPt((3 + c * 6) as i32, sp[q].p1.1));
            assert(sp[q].p2 == GridPt((3 + c * 6) as i32, sp[q].p2.1));
        }
    }
}

/// Points wired together belong to one node.
proof fn lemma_linked_owner(cs: Seq<NetlistComponentView>, w: Seq<Wire>, m: nat, a: GridPt, b: GridPt)
    requires
        m <= w.len(),
        forall|i: int| 0 <= i < w.len() ==> owner(cs, w[i].p1) == owner(cs, #[trigger] w[i].p2),
        linked(w, m, a, b),
    ensures
        owner(cs, a) == owner(cs, b),
    decreases m,
{
    if m > 0 {
        let j = (m - 1) as nat;
        let u = w[j as int].p1;
        let v = w[j as int].p2;
        assert(owner(cs, u) == owner(cs, v));
        if linked(w, j, a, b) {
            lemma_linked_owner(cs, w, j, a, b);
        } else if linked(w, j, a, u) && linked(w, j, v, b) {
            lemma_linked_owner(cs, w, j, a, u);
            lemma_linked_owner(cs, w, j, v, b);
        } else {
            lemma_linked_owner(cs, w, j, a, v);
            lemma_linked_owner(cs, w, j, u, b);
        }
    }
}

/// A re-export of an imported netlist gives its drawn elements the node
/// partition of the text: two element terminals get one node number exactly
/// when the netlist puts them on one node, and node 0 exactly when that node
/// is ground. (Elements with both ends on ground are not drawn; an import
/// holds at most `IMPORT_LIMIT` elements.)
pub proof fn law_reexport_node_partition(
    s: SchematicView,
    text: Seq<char>,
    k1: int,
    first1: bool,
    k2: int,
    first2: bool,
)
    requires
        netlist_components(lines(text)).len() <= IMPORT_LIMIT,
        0 <= k1 < netlist_components(lines(text)).len(),
        0 <= k2 < netlist_components(lines(text)).len(),
        drawn(netlist_components(lines(text)), k1),
        drawn(netlist_components(lines(text)), k2),
    ensures
        (pin_node(
            imported_schematic(s, text),
            terminal_pin(netlist_components(lines(text)), k1, first1),
        ) == pin_node(
            imported_schematic(s, text),
            terminal_pin(netlist_components(lines(text)), k2, first2),
        )) <==> (terminal_node(netlist_components(lines(text)), k1, first1) == terminal_node(
            netlist_components(lines(text)),
            k2,
            first2,
        )),
        (pin_node(
            imported_schematic(s, text),
            terminal_pin(netlist_components(lines(text)), k1, first1),
        ) == 0) <==> (terminal_node(netlist_components(lines(text)), k1, first1) == 0),
{
    let cs = netlist_components(lines(text));
    let s2 = imported_schematic(s, text);
    let nodes = node_list(cs);
    let lay = layout_upto(cs, nodes, cs.len() as int);
    let p = terminal_pin(cs, k1, first1);
    let q = terminal_pin(cs, k2, first2);
    let n1 = terminal_node(cs, k1, first1);
    let n2 = terminal_node(cs, k2, first2);
    assert(s2.components == lay.components);
    assert(s2.wires == schematic_layout(cs).1);
    lemma_no_ground_elements(lines(text));
    lemma_endpoint(cs, s2, k1, first1);
    lemma_endpoint(cs, s2, k2, first2);
    law_netlist_nodes(s2, p, q);
    law_netlist_nodes(s2, q, p);
    if n1 == n2 {
        law_reexport_keeps_shared_nodes(s, text, k1, first1, k2, first2);
    }
    lemma_wires_owned(cs);
    lemma_owner_terminal(cs, k1, first1);
    lemma_owner_terminal(cs, k2, first2);
    if n1 != n2 {
        if same_net(s2, p, q) {
            lemma_linked_owner(cs, s2.wires, s2.wires.len(), p, q);
        }
    }
    // A terminal off ground is not tied to any ground symbol.
    lemma_upto_parts(cs, cs.len() as int);
    assert forall|t: GridPt, k: int, f: bool|
        0 <= k < cs.len() && drawn(cs, k) && terminal_node(cs, k, f) != 0 && t == terminal_pin(cs, k, f)
            implies !grounded(s2, t) by {
        lemma_owner_terminal(cs, k, f);
        if grounded(s2, t) {
            let g = choose|g: int|
                0 <= g < s2.components.len() && s2.components[g].kind == CompKind::Ground
                    && same_net(s2, t, s2.components[g].p1);
            assert(lay.components[g] == s2.components[g]);
            assert(grounded_terminal(cs, cs.len() as int, lay.components[g].p1));
            let (j, f2) = choose|j: int, f2: bool|
                0 <= j < cs.len() && drawn(cs, j) && terminal_node(cs, j, f2) == 0
                    && lay.components[g].p1 == #[trigger] terminal_pin(cs, j, f2);
            lemma_owner_terminal(cs, j, f2);
            lemma_linked_owner(cs, s2.wires, s2.wires.len(), t, s2.components[g].p1);
        }
    }
    if n1 != 0 {
        assert(!grounded(s2, p));
    } else {
        law_reexport_keeps_shared_nodes(s, text, k1, first1, k1, first1);
    }
    if n2 != 0 {
        assert(!grounded(s2, q));
    }
}

} // verus!
