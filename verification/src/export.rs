//! What the schematic import reads back from the netlist that a schematic
//! exports: its elements, in order, with their node numbers.
use vstd::prelude::*;

use crate::layout::{line_component, netlist_components, NetlistComponentView};
use crate::schematic::{
    analysis_line, component_line, component_lines, kind_count, kind_letter, line_text,
    netlist_text, pin_node, AnalysisType, CompKind, SchematicView,
};
use crate::text::{
    dec, is_ws, join, lemma_dec_parse, lemma_lines_cons, lemma_split_ws_sep, lemma_split_ws_trim,
    lemma_split_ws_word, lemma_trim_keeps_first, lemma_trim_strip_cr, lines, parse_usize,
    split_ws, strip_cr, trim, upper,
};

verus! {

/// The elements that reading the first `m` components' lines back gives:
/// every component but a ground symbol, with the node numbers of its pins
/// and its value's words joined by single spaces.
pub open spec fn exported_elements(s: SchematicView, m: int) -> Seq<NetlistComponentView>
    decreases m,
{
    if m <= 0 {
        Seq::empty()
    } else {
        let c = s.components[m - 1];
        exported_elements(s, m - 1) + if c.kind == CompKind::Ground {
            Seq::empty()
        } else {
            seq![
                NetlistComponentView {
                    kind: c.kind,
                    node_a: pin_node(s, c.p1) as usize,
                    node_b: pin_node(s, c.p2) as usize,
                    val: join(split_ws(c.val), " "@),
                },
            ]
        }
    }
}

pub open spec fn no_line_feed(x: Seq<char>) -> bool {
    forall|i: int| 0 <= i < x.len() ==> x[i] != '\n'
}

/// The analysis card without its line feed.
pub open spec fn analysis_text(s: SchematicView) -> Seq<char> {
    match s.analysis_type {
        AnalysisType::Tran => ".tran "@ + s.tran_step + " "@ + s.tran_stop,
        AnalysisType::Ac => ".ac "@ + s.ac_variation + " "@ + s.ac_points + " "@ + s.ac_fstart
            + " "@ + s.ac_fstop,
    }
}

/// The line of component `k`, without its line feed.
pub open spec fn element_text(s: SchematicView, k: int) -> Seq<char> {
    let c = s.components[k];
    seq![kind_letter(c.kind)] + dec(kind_count(s.components, k, c.kind) + 1) + " "@ + dec(
        pin_node(s, c.p1),
    ) + " "@ + dec(pin_node(s, c.p2)) + " "@ + c.val
}

/// A schematic whose netlist lines read back one for one: no value or
/// analysis setting breaks a line, every element has a value, and node
/// numbers fit in `usize`.
pub open spec fn exportable(s: SchematicView) -> bool {
    &&& forall|k: int|
        0 <= k < s.components.len() && #[trigger] s.components[k].kind != CompKind::Ground ==> {
            let c = s.components[k];
            &&& no_line_feed(c.val)
            &&& split_ws(c.val).len() > 0
            &&& pin_node(s, c.p1) <= usize::MAX
            &&& pin_node(s, c.p2) <= usize::MAX
        }
    &&& no_line_feed(analysis_text(s))
}

/// Lines, each followed by a line feed.
pub open spec fn joined(ls: Seq<Seq<char>>) -> Seq<char>
    decreases ls.len(),
{
    if ls.len() == 0 {
        Seq::empty()
    } else {
        joined(ls.drop_last()) + ls.last() + seq!['\n']
    }
}

/// The element lines of the first `m` components.
pub open spec fn element_lines(s: SchematicView, m: int) -> Seq<Seq<char>>
    decreases m,
{
    if m <= 0 {
        Seq::empty()
    } else {
        element_lines(s, m - 1) + if s.components[m - 1].kind == CompKind::Ground {
            Seq::empty()
        } else {
            seq![element_text(s, m - 1)]
        }
    }
}

proof fn lemma_joined_single(x: Seq<char>)
    ensures
        joined(seq![x]) == x + seq!['\n'],
{
    let e = seq![x].drop_last();
    assert(e =~= Seq::<Seq<char>>::empty());
    assert(joined(e) == Seq::<char>::empty());
    assert(seq![x].last() == x);
    assert(joined(seq![x]) == joined(e) + x + seq!['\n']);
    assert(Seq::<char>::empty() + x + seq!['\n'] =~= x + seq!['\n']);
}

proof fn lemma_joined_append(a: Seq<Seq<char>>, b: Seq<Seq<char>>)
    ensures
        joined(a + b) == joined(a) + joined(b),
    decreases b.len(),
{
    if b.len() == 0 {
        assert(a + b =~= a);
        assert(joined(a) + joined(b) =~= joined(a));
    } else {
        assert((a + b).drop_last() =~= a + b.drop_last());
        assert((a + b).last() == b.last());
        lemma_joined_append(a, b.drop_last());
        assert(joined(a + b) =~= joined(a) + joined(b));
    }
}

/// Reading the lines of joined text gives them back, each without a
/// carriage return at its end.
proof fn lemma_lines_joined(ls: Seq<Seq<char>>)
    requires
        forall|i: int| 0 <= i < ls.len() ==> no_line_feed(#[trigger] ls[i]),
    ensures
        lines(joined(ls)) == Seq::new(ls.len(), |i: int| strip_cr(ls[i])),
    decreases ls.len(),
{
    if ls.len() == 0 {
        assert(lines(Seq::<char>::empty()) =~= Seq::<Seq<char>>::empty());
        assert(Seq::new(ls.len(), |i: int| strip_cr(ls[i])) =~= Seq::<Seq<char>>::empty());
    } else {
        let rest = ls.drop_first();
        assert(ls =~= seq![ls[0]] + rest);
        lemma_joined_append(seq![ls[0]], rest);
        lemma_joined_single(ls[0]);
        assert(no_line_feed(ls[0]));
        lemma_lines_cons(ls[0], joined(rest));
        assert(ls[0] + seq!['\n'] + joined(rest) =~= joined(ls));
        assert forall|i: int| 0 <= i < rest.len() implies no_line_feed(#[trigger] rest[i]) by {
            assert(rest[i] == ls[i + 1]);
        }
        lemma_lines_joined(rest);
        assert(lines(joined(ls)) =~= Seq::new(ls.len(), |i: int| strip_cr(ls[i])));
    }
}

proof fn lemma_components_append(a: Seq<Seq<char>>, b: Seq<Seq<char>>)
    ensures
        netlist_components(a + b) == netlist_components(a) + netlist_components(b),
    decreases b.len(),
{
    if b.len() == 0 {
        assert(a + b =~= a);
        assert(netlist_components(b) =~= Seq::<NetlistComponentView>::empty());
        assert(netlist_components(a) + netlist_components(b) =~= netlist_components(a));
    } else {
        assert((a + b).drop_last() =~= a + b.drop_last());
        assert((a + b).last() == b.last());
        lemma_components_append(a, b.drop_last());
        assert(netlist_components(a + b) =~= netlist_components(a) + netlist_components(b));
    }
}

proof fn lemma_components_single(x: Seq<char>)
    ensures
        netlist_components(seq![x]) == match line_component(x) {
            Some(c) => seq![c],
            None => Seq::<NetlistComponentView>::empty(),
        },
{
    let e = seq![x].drop_last();
    assert(e =~= Seq::<Seq<char>>::empty());
    assert(netlist_components(e) == Seq::<NetlistComponentView>::empty());
    assert(seq![x].last() == x);
    match line_component(x) {
        Some(c) => {
            assert(netlist_components(seq![x]) == netlist_components(e) + seq![c]);
            assert(Seq::<NetlistComponentView>::empty() + seq![c] =~= seq![c]);
        },
        None => {
            assert(netlist_components(seq![x]) == netlist_components(e) + Seq::<
                NetlistComponentView,
            >::empty());
            assert(Seq::<NetlistComponentView>::empty() + Seq::<NetlistComponentView>::empty()
                =~= Seq::<NetlistComponentView>::empty());
        },
    }
}

/// Carriage returns at the ends of lines change no element.
proof fn lemma_components_strip(ls: Seq<Seq<char>>)
    ensures
        netlist_components(Seq::new(ls.len(), |i: int| strip_cr(ls[i]))) == netlist_components(ls),
    decreases ls.len(),
{
    let st = Seq::new(ls.len(), |i: int| strip_cr(ls[i]));
    if ls.len() > 0 {
        let d = ls.drop_last();
        lemma_components_strip(d);
        assert(st.drop_last() =~= Seq::new(d.len(), |i: int| strip_cr(d[i])));
        lemma_trim_strip_cr(ls.last());
        assert(line_component(st.last()) == line_component(ls.last()));
    }
}

/// A title, a dot card: no element.
proof fn lemma_not_element(x: Seq<char>)
    requires
        x.len() > 0,
        x[0] == '*' || x[0] == '.',
    ensures
        line_component(x) is None,
{
    lemma_trim_keeps_first(x);
}

/// The line of a component other than ground reads back as that component.
proof fn lemma_element_line(s: SchematicView, k: int)
    requires
        exportable(s),
        0 <= k < s.components.len(),
        s.components[k].kind != CompKind::Ground,
    ensures
        no_line_feed(element_text(s, k)),
        line_component(element_text(s, k)) == Some(
            NetlistComponentView {
                kind: s.components[k].kind,
                node_a: pin_node(s, s.components[k].p1) as usize,
                node_b: pin_node(s, s.components[k].p2) as usize,
                val: join(split_ws(s.components[k].val), " "@),
            },
        ),
{
    let c = s.components[k];
    assert(s.components[k].kind != CompKind::Ground);
    let letter = kind_letter(c.kind);
    let n0 = kind_count(s.components, k, c.kind) + 1;
    let n1 = pin_node(s, c.p1);
    let n2 = pin_node(s, c.p2);
    reveal_strlit(" ");
    assert(" "@ == seq![' ']);
    lemma_dec_parse(n1);
    lemma_dec_parse(n2);
    crate::text::lemma_dec_digits(n0);
    let name = seq![letter] + dec(n0);
    let x = element_text(s, k);
    let tail2 = dec(n2) + seq![' '] + c.val;
    let tail1 = dec(n1) + seq![' '] + tail2;
    assert(x =~= name + seq![' '] + tail1);
    assert(is_ws(' '));
    lemma_split_ws_sep(name, ' ', tail1);
    lemma_split_ws_sep(dec(n1), ' ', tail2);
    lemma_split_ws_sep(dec(n2), ' ', c.val);
    assert forall|i: int| 0 <= i < name.len() implies !is_ws(name[i]) by {
        if i > 0 {
            assert(name[i] == dec(n0)[i - 1]);
        }
    }
    lemma_split_ws_word(name);
    lemma_split_ws_word(dec(n1));
    lemma_split_ws_word(dec(n2));
    let toks = split_ws(x);
    assert(toks =~= seq![name, dec(n1), dec(n2)] + split_ws(c.val));
    lemma_split_ws_trim(x);
    assert(x[0] == letter);
    lemma_trim_keeps_first(x);
    assert(upper(letter) == letter);
    assert(toks.skip(3) =~= split_ws(c.val));
    assert forall|i: int| 0 <= i < x.len() implies x[i] != '\n' by {
        assert(no_line_feed(c.val));
        if i < name.len() {
            if i > 0 {
                assert(x[i] == dec(n0)[i - 1]);
            }
        } else if i == name.len() {
        } else if i < name.len() + 1 + dec(n1).len() {
            assert(x[i] == dec(n1)[i - name.len() - 1]);
        } else if i == name.len() + 1 + dec(n1).len() {
        } else if i < name.len() + 2 + dec(n1).len() + dec(n2).len() {
            assert(x[i] == dec(n2)[i - name.len() - 2 - dec(n1).len()]);
        } else if i == name.len() + 2 + dec(n1).len() + dec(n2).len() {
        } else {
            assert(x[i] == c.val[i - name.len() - 3 - dec(n1).len() - dec(n2).len()]);
        }
    }
}

proof fn lemma_element_lines(s: SchematicView, m: int)
    requires
        exportable(s),
        0 <= m <= s.components.len(),
    ensures
        component_lines(s, m) == joined(element_lines(s, m)),
        forall|i: int|
            0 <= i < element_lines(s, m).len() ==> no_line_feed(#[trigger] element_lines(s, m)[i]),
        netlist_components(element_lines(s, m)) == exported_elements(s, m),
    decreases m,
{
    if m > 0 {
        lemma_element_lines(s, m - 1);
        let k = m - 1;
        let prev = element_lines(s, m - 1);
        if s.components[k].kind == CompKind::Ground {
            assert(element_lines(s, m) =~= prev);
            assert(component_line(s, k) =~= Seq::<char>::empty());
            assert(component_lines(s, m) =~= component_lines(s, m - 1));
            assert(exported_elements(s, m) =~= exported_elements(s, m - 1));
        } else {
            lemma_element_line(s, k);
            let et = element_text(s, k);
            assert(element_lines(s, m) == prev + seq![et]);
            reveal(line_text);
            reveal_strlit("\n");
            assert(component_line(s, k) =~= et + seq!['\n']);
            lemma_joined_append(prev, seq![et]);
            lemma_joined_single(et);
            assert(component_lines(s, m) =~= joined(element_lines(s, m)));
            assert forall|i: int| 0 <= i < element_lines(s, m).len() implies no_line_feed(
                #[trigger] element_lines(s, m)[i],
            ) by {
                if i < prev.len() {
                    assert(element_lines(s, m)[i] == prev[i]);
                }
            }
            lemma_components_append(prev, seq![et]);
            lemma_components_single(et);
            assert(exported_elements(s, m) =~= exported_elements(s, m - 1) + seq![
                line_component(et).unwrap(),
            ]);
        }
    }
}

/// Exporting a schematic and importing the netlist gives back its elements:
/// every component but the ground symbols, in order, of the same kind,
/// between the node numbers of its pins, with its value's words.
pub proof fn law_export_reads_back(s: SchematicView)
    requires
        exportable(s),
    ensures
        netlist_components(lines(netlist_text(s))) == exported_elements(
            s,
            s.components.len() as int,
        ),
{
    let n = s.components.len() as int;
    let title = "* Auto-generated from Schematic"@;
    let op = ".op"@;
    let end = ".end"@;
    let at = analysis_text(s);
    reveal_strlit("* Auto-generated from Schematic");
    reveal_strlit("* Auto-generated from Schematic\n");
    reveal_strlit(".op");
    reveal_strlit(".op\n");
    reveal_strlit(".end");
    reveal_strlit(".end\n");
    reveal_strlit("\n");
    reveal_strlit(".tran ");
    reveal_strlit(".ac ");
    let el = element_lines(s, n);
    lemma_element_lines(s, n);
    let all = seq![title] + el + seq![op] + seq![at] + seq![end];
    // The text is these lines, each with its line feed.
    lemma_joined_append(seq![title], el);
    lemma_joined_append(seq![title] + el, seq![op]);
    lemma_joined_append(seq![title] + el + seq![op], seq![at]);
    lemma_joined_append(seq![title] + el + seq![op] + seq![at], seq![end]);
    lemma_joined_single(title);
    lemma_joined_single(op);
    lemma_joined_single(at);
    lemma_joined_single(end);
    assert(joined(seq![title]) =~= "* Auto-generated from Schematic\n"@);
    assert(joined(seq![op]) =~= ".op\n"@);
    assert(joined(seq![end]) =~= ".end\n"@);
    assert(joined(seq![at]) =~= analysis_line(s));
    assert(joined(all) =~= netlist_text(s));
    // No line holds a line feed.
    assert forall|i: int| 0 <= i < all.len() implies no_line_feed(#[trigger] all[i]) by {
        if i == 0 {
            assert(all[i] == title);
        } else if i <= el.len() {
            assert(all[i] == el[i - 1]);
        } else if i == el.len() + 1 {
            assert(all[i] == op);
        } else if i == el.len() + 2 {
            assert(all[i] == at);
        } else {
            assert(all[i] == end);
        }
    }
    lemma_lines_joined(all);
    lemma_components_strip(all);
    // Only the element lines hold elements.
    lemma_components_append(seq![title], el);
    lemma_components_append(seq![title] + el, seq![op]);
    lemma_components_append(seq![title] + el + seq![op], seq![at]);
    lemma_components_append(seq![title] + el + seq![op] + seq![at], seq![end]);
    lemma_components_single(title);
    lemma_components_single(op);
    lemma_components_single(at);
    lemma_components_single(end);
    lemma_not_element(title);
    lemma_not_element(op);
    lemma_not_element(end);
    assert(at.len() > 0 && at[0] == '.');
    lemma_not_element(at);
    assert(netlist_components(all) =~= exported_elements(s, n));
}

} // verus!
