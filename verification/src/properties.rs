//! Properties of the netlist reader that span many lines and many calls.
use vstd::prelude::*;

use crate::analysis::{plan_spec, AnalysisView};
use crate::circuit::{validate_spec, CircuitView};
use crate::netlist::{
    ac_spec, diode_spec, dot_spec, lines_spec, line_spec, model_spec, mosfet_spec, node_spec,
    parse_spec, source_spec, strip_comment_spec, tran_spec, two_terminal_spec, word_end,
    initial_state, LineOutcome, ParseState, TwoTerminalKind,
};
use crate::text::{
    lemma_lines_append, lemma_lines_nl, lemma_lines_one, lemma_trim_push_ws, lines, lower_seq,
    split_ws, strip_cr, trim,
};

verus! {

// ─── Element terminals ───────────────────────────────────────────────────────

/// Every terminal of every element is one of the circuit's nodes (below
/// `nodes`), so that each has a place in the nodal equations.
pub open spec fn terminals_in_range(c: CircuitView) -> bool {
    &&& forall|i: int|
        0 <= i < c.resistors.len() ==> #[trigger] c.resistors[i].n1 < c.nodes
            && c.resistors[i].n2 < c.nodes
    &&& forall|i: int|
        0 <= i < c.capacitors.len() ==> #[trigger] c.capacitors[i].n1 < c.nodes
            && c.capacitors[i].n2 < c.nodes
    &&& forall|i: int|
        0 <= i < c.inductors.len() ==> #[trigger] c.inductors[i].n1 < c.nodes
            && c.inductors[i].n2 < c.nodes
    &&& forall|i: int|
        0 <= i < c.voltage_sources.len() ==> #[trigger] c.voltage_sources[i].n1 < c.nodes
            && c.voltage_sources[i].n2 < c.nodes
    &&& forall|i: int|
        0 <= i < c.diodes.len() ==> #[trigger] c.diodes[i].anode < c.nodes && c.diodes[i].cathode
            < c.nodes
    &&& forall|i: int|
        0 <= i < c.mosfets.len() ==> #[trigger] c.mosfets[i].nd < c.nodes && c.mosfets[i].ng
            < c.nodes && c.mosfets[i].ns < c.nodes && c.mosfets[i].nb < c.nodes
}

/// The same elements, with at least as many nodes.
pub open spec fn grown(c: CircuitView, c2: CircuitView) -> bool {
    c2 == CircuitView { nodes: c2.nodes, ..c } && c2.nodes >= c.nodes
}

proof fn lemma_node(t: Seq<char>, c: CircuitView)
    ensures
        node_spec(t, c) matches Ok((id, c1)) ==> id < c1.nodes && grown(c, c1),
{
}

proof fn lemma_grown(c: CircuitView, c2: CircuitView)
    requires
        terminals_in_range(c),
        grown(c, c2),
    ensures
        terminals_in_range(c2),
{
}

proof fn lemma_two_terminal(tokens: Seq<Seq<char>>, c: CircuitView, kind: TwoTerminalKind)
    requires
        terminals_in_range(c),
    ensures
        two_terminal_spec(tokens, c, kind) matches Ok(c2) ==> terminals_in_range(c2),
{
    lemma_node(tokens[1], c);
    if let Ok((n1, c1)) = node_spec(tokens[1], c) {
        lemma_grown(c, c1);
        lemma_node(tokens[2], c1);
        if let Ok((n2, c2)) = node_spec(tokens[2], c1) {
            lemma_grown(c1, c2);
            if let Ok(c3) = two_terminal_spec(tokens, c, kind) {
                match kind {
                    TwoTerminalKind::Resistor => {
                        assert forall|i: int| 0 <= i < c3.resistors.len() implies #[trigger] c3.resistors[i].n1
                            < c3.nodes && c3.resistors[i].n2 < c3.nodes by {
                            if i < c2.resistors.len() {
                                assert(c3.resistors[i] == c2.resistors[i]);
                            }
                        }
                    },
                    TwoTerminalKind::Capacitor => {
                        assert forall|i: int| 0 <= i < c3.capacitors.len() implies #[trigger] c3.capacitors[i].n1
                            < c3.nodes && c3.capacitors[i].n2 < c3.nodes by {
                            if i < c2.capacitors.len() {
                                assert(c3.capacitors[i] == c2.capacitors[i]);
                            }
                        }
                    },
                    TwoTerminalKind::Inductor => {
                        assert forall|i: int| 0 <= i < c3.inductors.len() implies #[trigger] c3.inductors[i].n1
                            < c3.nodes && c3.inductors[i].n2 < c3.nodes by {
                            if i < c2.inductors.len() {
                                assert(c3.inductors[i] == c2.inductors[i]);
                            }
                        }
                    },
                }
            }
        }
    }
}

proof fn lemma_diode(tokens: Seq<Seq<char>>, c: CircuitView)
    requires
        terminals_in_range(c),
    ensures
        diode_spec(tokens, c) matches Ok(c2) ==> terminals_in_range(c2),
{
    lemma_node(tokens[1], c);
    if let Ok((a, c1)) = node_spec(tokens[1], c) {
        lemma_grown(c, c1);
        lemma_node(tokens[2], c1);
        if let Ok((k, c2)) = node_spec(tokens[2], c1) {
            lemma_grown(c1, c2);
            if let Ok(c3) = diode_spec(tokens, c) {
                assert forall|i: int| 0 <= i < c3.diodes.len() implies #[trigger] c3.diodes[i].anode
                    < c3.nodes && c3.diodes[i].cathode < c3.nodes by {
                    if i < c2.diodes.len() {
                        assert(c3.diodes[i] == c2.diodes[i]);
                    }
                }
            }
        }
    }
}

proof fn lemma_source(tokens: Seq<Seq<char>>, c: CircuitView)
    requires
        terminals_in_range(c),
    ensures
        source_spec(tokens, c) matches Ok(c2) ==> terminals_in_range(c2),
{
    lemma_node(tokens[1], c);
    if let Ok((a, c1)) = node_spec(tokens[1], c) {
        lemma_grown(c, c1);
        lemma_node(tokens[2], c1);
        if let Ok((k, c2)) = node_spec(tokens[2], c1) {
            lemma_grown(c1, c2);
            if let Ok(c3) = source_spec(tokens, c) {
                assert forall|i: int| 0 <= i < c3.voltage_sources.len() implies #[trigger] c3.voltage_sources[i].n1
                    < c3.nodes && c3.voltage_sources[i].n2 < c3.nodes by {
                    if i < c2.voltage_sources.len() {
                        assert(c3.voltage_sources[i] == c2.voltage_sources[i]);
                    }
                }
            }
        }
    }
}

proof fn lemma_mosfet(tokens: Seq<Seq<char>>, c: CircuitView)
    requires
        terminals_in_range(c),
    ensures
        mosfet_spec(tokens, c) matches Ok(c2) ==> terminals_in_range(c2),
{
    lemma_node(tokens[1], c);
    if let Ok((d, c1)) = node_spec(tokens[1], c) {
        lemma_grown(c, c1);
        lemma_node(tokens[2], c1);
        if let Ok((g, c2)) = node_spec(tokens[2], c1) {
            lemma_grown(c1, c2);
            lemma_node(tokens[3], c2);
            if let Ok((s, c3)) = node_spec(tokens[3], c2) {
                lemma_grown(c2, c3);
                lemma_node(tokens[4], c3);
                if let Ok((b, c4)) = node_spec(tokens[4], c3) {
                    lemma_grown(c3, c4);
                    if let Ok(c5) = mosfet_spec(tokens, c) {
                        assert forall|i: int| 0 <= i < c5.mosfets.len() implies #[trigger] c5.mosfets[i].nd
                            < c5.nodes && c5.mosfets[i].ng < c5.nodes && c5.mosfets[i].ns < c5.nodes
                            && c5.mosfets[i].nb < c5.nodes by {
                            if i < c4.mosfets.len() {
                                assert(c5.mosfets[i] == c4.mosfets[i]);
                            }
                        }
                    }
                }
            }
        }
    }
}

/// The same nodes and elements (models may differ).
pub open spec fn same_elements(c: CircuitView, c2: CircuitView) -> bool {
    &&& c2.nodes == c.nodes
    &&& c2.resistors == c.resistors
    &&& c2.capacitors == c.capacitors
    &&& c2.inductors == c.inductors
    &&& c2.voltage_sources == c.voltage_sources
    &&& c2.diodes == c.diodes
    &&& c2.mosfets == c.mosfets
}

proof fn lemma_same_elements(c: CircuitView, c2: CircuitView)
    requires
        terminals_in_range(c),
        same_elements(c, c2),
    ensures
        terminals_in_range(c2),
{
}

proof fn lemma_line(raw: Seq<char>, n: nat, st: ParseState)
    requires
        terminals_in_range(st.circuit),
    ensures
        line_spec(raw, n, st) matches LineOutcome::Next(s2) ==> terminals_in_range(s2.circuit),
{
    reveal(line_spec);
    let t = trim(strip_comment_spec(raw, false));
    let tokens = split_ws(t);
    if t.len() > 0 && lower_seq(t) != word_end() {
        if t[0] == '.' {
            if let Ok(s2) = model_spec(tokens, st) {
                assert(same_elements(st.circuit, s2.circuit));
                lemma_same_elements(st.circuit, s2.circuit);
            }
            if let Ok(s2) = dot_spec(tokens, st) {
                assert(same_elements(st.circuit, s2.circuit));
                lemma_same_elements(st.circuit, s2.circuit);
            }
        } else if tokens.len() >= 4 {
            lemma_two_terminal(tokens, st.circuit, TwoTerminalKind::Resistor);
            lemma_two_terminal(tokens, st.circuit, TwoTerminalKind::Capacitor);
            lemma_two_terminal(tokens, st.circuit, TwoTerminalKind::Inductor);
            lemma_diode(tokens, st.circuit);
            lemma_source(tokens, st.circuit);
            lemma_mosfet(tokens, st.circuit);
        }
    }
}

proof fn lemma_lines(ls: Seq<Seq<char>>, k: int, st: ParseState)
    requires
        terminals_in_range(st.circuit),
    ensures
        lines_spec(ls, k, st) matches Ok(s2) ==> terminals_in_range(s2.circuit),
    decreases ls.len() - k,
{
    if 0 <= k < ls.len() {
        lemma_line(ls[k], (k + 1) as nat, st);
        if let LineOutcome::Next(s2) = line_spec(ls[k], (k + 1) as nat, st) {
            lemma_lines(ls, k + 1, s2);
        }
    }
}

/// A netlist that reads without error describes a valid circuit in which
/// every element's terminals are among the circuit's nodes.
pub proof fn law_parsed_circuit_well_formed(source: Seq<char>)
    ensures
        parse_spec(source) matches Ok(n) ==> terminals_in_range(n.circuit) && validate_spec(
            n.circuit,
        ) is Ok,
{
    lemma_lines(lines(source), 0, crate::netlist::initial_state());
}

// ─── The end card ────────────────────────────────────────────────────────────

/// The line reads as `.end` (in any case, around blanks and comments).
pub open spec fn is_end_line(raw: Seq<char>) -> bool {
    lower_seq(trim(strip_comment_spec(raw, false))) == word_end()
}

proof fn lemma_end_suffix(a: Seq<Seq<char>>, b: Seq<Seq<char>>, k: int, st: ParseState)
    requires
        a.len() > 0,
        is_end_line(a.last()),
        0 <= k < a.len(),
    ensures
        lines_spec(a + b, k, st) == lines_spec(a, k, st),
    decreases a.len() - k,
{
    assert((a + b)[k] == a[k]);
    let t = trim(strip_comment_spec(a[k], false));
    reveal(line_spec);
    if k == a.len() - 1 {
        assert(lower_seq(t).len() == t.len());
        assert(word_end().len() == 4);
        assert(line_spec(a[k], (k + 1) as nat, st) == LineOutcome::Stop);
    } else if let LineOutcome::Next(s2) = line_spec(a[k], (k + 1) as nat, st) {
        lemma_end_suffix(a, b, k + 1, s2);
    }
}

/// Reading stops at `.end`: lines that follow it change nothing.
pub proof fn law_end_stops_reading(a: Seq<Seq<char>>, b: Seq<Seq<char>>, st: ParseState)
    requires
        a.len() > 0,
        is_end_line(a.last()),
    ensures
        lines_spec(a + b, 0, st) == lines_spec(a, 0, st),
{
    lemma_end_suffix(a, b, 0, st);
}

/// A `.end` line after the lines read so far gives what they give.
proof fn lemma_end_after(ls: Seq<Seq<char>>, e: Seq<char>, k: int, st: ParseState)
    requires
        is_end_line(e),
        0 <= k <= ls.len(),
    ensures
        lines_spec(ls.push(e), k, st) == lines_spec(ls, k, st),
    decreases ls.len() - k,
{
    reveal(line_spec);
    if k == ls.len() {
        let t = trim(strip_comment_spec(e, false));
        assert(ls.push(e)[k] == e);
        assert(lower_seq(t).len() == t.len());
        assert(word_end().len() == 4);
        assert(line_spec(e, (k + 1) as nat, st) == LineOutcome::Stop);
    } else {
        assert(ls.push(e)[k] == ls[k]);
        if let LineOutcome::Next(s2) = line_spec(ls[k], (k + 1) as nat, st) {
            lemma_end_after(ls, e, k + 1, s2);
        }
    }
}

/// Reading stops at a `.end` line: whatever text follows it, even text that
/// would not read, a netlist reads as the text before the line does.
pub proof fn law_end_stops_reading_text(p: Seq<char>, e: Seq<char>, q: Seq<char>)
    requires
        p.len() == 0 || p.last() == '\n',
        !e.contains('\n'),
        is_end_line(strip_cr(e)),
    ensures
        parse_spec(p + e.push('\n') + q) == parse_spec(p),
{
    let el = e.push('\n');
    lemma_lines_append(p, el + q);
    lemma_lines_append(el, q);
    lemma_lines_one(e);
    assert(p + el + q =~= p + (el + q));
    let a = lines(p).push(strip_cr(e));
    assert(lines(p + el + q) =~= a + lines(q));
    law_end_stops_reading(a, lines(q), initial_state());
    lemma_end_after(lines(p), strip_cr(e), 0, initial_state());
}

proof fn lemma_strip_push(x: Seq<char>, c: char, q: bool)
    requires
        c != '"' && c != '*' && c != ';',
    ensures
        strip_comment_spec(x.push(c), q) == strip_comment_spec(x, q) || strip_comment_spec(
            x.push(c),
            q,
        ) == strip_comment_spec(x, q).push(c),
    decreases x.len(),
{
    if x.len() == 0 {
        assert(x.push(c).drop_first() =~= Seq::<char>::empty());
        assert(strip_comment_spec(Seq::<char>::empty(), q) == Seq::<char>::empty());
        assert(strip_comment_spec(x.push(c), q) =~= seq![c]);
    } else {
        assert(x.push(c)[0] == x[0]);
        assert(x.push(c).drop_first() =~= x.drop_first().push(c));
        if x[0] == '"' {
            lemma_strip_push(x.drop_first(), c, !q);
        } else if (x[0] == '*' || x[0] == ';') && !q {
        } else {
            lemma_strip_push(x.drop_first(), c, q);
            let r = strip_comment_spec(x.drop_first(), q);
            assert(seq![x[0]] + r.push(c) =~= (seq![x[0]] + r).push(c));
        }
    }
}

/// A carriage return at the end of a line changes nothing it does.
proof fn lemma_line_cr(x: Seq<char>, n: nat, st: ParseState)
    ensures
        line_spec(strip_cr(x), n, st) == line_spec(x, n, st),
{
    if x.len() > 0 && x.last() == '\r' {
        let y = x.drop_last();
        assert(x =~= y.push('\r'));
        lemma_strip_push(y, '\r', false);
        lemma_trim_push_ws(strip_comment_spec(y, false), '\r');
        assert(trim(strip_comment_spec(y, false)) == trim(strip_comment_spec(x, false)));
        reveal(line_spec);
    }
}

proof fn lemma_last_line_cr(ls: Seq<Seq<char>>, x: Seq<char>, k: int, st: ParseState)
    requires
        0 <= k <= ls.len(),
    ensures
        lines_spec(ls.push(strip_cr(x)), k, st) == lines_spec(ls.push(x), k, st),
    decreases ls.len() - k,
{
    assert(ls.push(x)[ls.len() as int] == x);
    assert(ls.push(strip_cr(x))[ls.len() as int] == strip_cr(x));
    if k == ls.len() {
        lemma_line_cr(x, (k + 1) as nat, st);
    } else {
        assert(ls.push(x)[k] == ls[k]);
        assert(ls.push(strip_cr(x))[k] == ls[k]);
        if let LineOutcome::Next(s2) = line_spec(ls[k], (k + 1) as nat, st) {
            lemma_last_line_cr(ls, x, k + 1, s2);
        }
    }
}

proof fn lemma_empty_last(ls: Seq<Seq<char>>, k: int, st: ParseState)
    requires
        0 <= k <= ls.len(),
    ensures
        lines_spec(ls.push(Seq::<char>::empty()), k, st) == lines_spec(ls, k, st),
    decreases ls.len() - k,
{
    let l2 = ls.push(Seq::<char>::empty());
    if k == ls.len() {
        assert(l2[k] == Seq::<char>::empty());
        assert(line_spec(Seq::<char>::empty(), (k + 1) as nat, st) == LineOutcome::Next(st)) by {
            reveal(line_spec);
            assert(strip_comment_spec(Seq::<char>::empty(), false) == Seq::<char>::empty());
            assert(trim(Seq::<char>::empty()) == Seq::<char>::empty());
        }
        assert(lines_spec(l2, k + 1, st) == lines_spec(ls, k, st));
        assert(lines_spec(l2, k, st) == lines_spec(l2, k + 1, st));
    } else {
        assert(l2[k] == ls[k]);
        if let LineOutcome::Next(s2) = line_spec(ls[k], (k + 1) as nat, st) {
            lemma_empty_last(ls, k + 1, s2);
        }
    }
}

/// One more line feed at the end of a netlist changes nothing.
pub proof fn law_final_line_feed(a: Seq<char>)
    ensures
        parse_spec(a.push('\n')) == parse_spec(a),
{
    lemma_lines_nl(a);
    if a.len() == 0 || a.last() == '\n' {
        lemma_empty_last(lines(a), 0, initial_state());
    } else {
        let ls = lines(a);
        let d = ls.drop_last();
        assert(ls =~= d.push(ls.last()));
        lemma_last_line_cr(d, ls.last(), 0, initial_state());
    }
}

/// Reading stops at a `.end` line, whatever text stands before it: the
/// netlist reads as that text alone, and whatever follows the line, even text
/// that would not read, changes nothing.
pub proof fn law_end_line_ends_reading(a: Seq<char>, e: Seq<char>, b: Seq<char>)
    requires
        !e.contains('\n'),
        is_end_line(strip_cr(e)),
    ensures
        parse_spec(a + seq!['\n'] + e + seq!['\n'] + b) == parse_spec(a),
{
    let p = a.push('\n');
    law_end_stops_reading_text(p, e, b);
    assert(a + seq!['\n'] + e + seq!['\n'] + b =~= p + e.push('\n') + b);
    law_final_line_feed(a);
}

// ─── Something to run ────────────────────────────────────────────────────────

/// A transient step is set exactly when a stop time is.
pub open spec fn tran_paired(a: AnalysisView) -> bool {
    (a.tran_step is Some) == (a.tran_stop is Some)
}

proof fn lemma_line_paired(raw: Seq<char>, n: nat, st: ParseState)
    requires
        tran_paired(st.analysis),
    ensures
        line_spec(raw, n, st) matches LineOutcome::Next(s2) ==> tran_paired(s2.analysis),
{
    reveal(line_spec);
    let t = trim(strip_comment_spec(raw, false));
    let tokens = split_ws(t);
    assert(model_spec(tokens, st) matches Ok(s2) ==> s2.analysis == st.analysis);
    assert(tran_spec(tokens, st.analysis) matches Ok(a) ==> tran_paired(a));
    assert(ac_spec(tokens, st.analysis) matches Ok(a) ==> a.tran_step == st.analysis.tran_step
        && a.tran_stop == st.analysis.tran_stop);
}

proof fn lemma_lines_paired(ls: Seq<Seq<char>>, k: int, st: ParseState)
    requires
        tran_paired(st.analysis),
    ensures
        lines_spec(ls, k, st) matches Ok(s2) ==> tran_paired(s2.analysis),
    decreases ls.len() - k,
{
    if 0 <= k < ls.len() {
        lemma_line_paired(ls[k], (k + 1) as nat, st);
        if let LineOutcome::Next(s2) = line_spec(ls[k], (k + 1) as nat, st) {
            lemma_lines_paired(ls, k + 1, s2);
        }
    }
}

/// Every netlist that reads has an analysis to run: with no command a DC
/// operating point, and a `.tran` always brings both its times.
pub proof fn law_parsed_netlist_runs(source: Seq<char>)
    ensures
        parse_spec(source) matches Ok(n) ==> plan_spec(n.analysis) is Ok,
{
    lemma_lines_paired(lines(source), 0, crate::netlist::initial_state());
}

} // verus!
