//! The SPICE netlist reader.
use vstd::prelude::*;
use vstd::string::StringExecFns;

use crate::analysis::{AcCommand, AcCommandView, AcScale, AnalysisCommands, AnalysisView};
use crate::circuit::{
    Capacitor, Circuit, CircuitView, Diode, DiodeModel, DiodeModelView, DiodeView, Inductor,
    Mosfet, MosfetModel, MosfetModelView, MosfetType, MosfetView, NodeId, Pulse, PulseView,
    Resistor, Sine, SineView, TwoTerminalView, VoltageSource, VoltageSourceView, validate_spec,
};
use crate::error::{SimError, SimErrorView};
use crate::text::{
    chars_eq, chars_of, dec, find, find_chars, has_prefix, is_whitespace, is_ws, join, join_from, lines,
    lower_seq, lowercase, parse_usize, parse_usize_chars, push_decimal, replace_all,
    replace_chars, slice_vec, split_lines, split_whitespace, split_ws, starts_with, string_of,
    to_upper, trim, trim_chars, upper, views,
};
use crate::units::{
    literal_ext, parse_value_chars, parse_value_spec, suffix_multiplier, suffix_scale, Value,
    ValueView,
};

verus! {

// ─── Comments ────────────────────────────────────────────────────────────────

/// A line with its comment removed: from the first `*` or `;` outside double
/// quotes on. The quotes themselves are dropped.
pub open spec fn strip_comment_spec(s: Seq<char>, in_string: bool) -> Seq<char>
    decreases s.len(),
{
    if s.len() == 0 {
        Seq::empty()
    } else if s[0] == '"' {
        strip_comment_spec(s.drop_first(), !in_string)
    } else if (s[0] == '*' || s[0] == ';') && !in_string {
        Seq::empty()
    } else {
        seq![s[0]] + strip_comment_spec(s.drop_first(), in_string)
    }
}

pub fn strip_comment(line: &[char]) -> (out: Vec<char>)
    ensures
        out@ == strip_comment_spec(line@, false),
{
    let mut out: Vec<char> = Vec::new();
    let mut in_string = false;
    let mut i: usize = 0;
    assert(line@.skip(0) =~= line@);
    while i < line.len()
        invariant
            i <= line.len(),
            out@ + strip_comment_spec(line@.skip(i as int), in_string) == strip_comment_spec(
                line@,
                false,
            ),
        decreases line.len() - i,
    {
        let ghost rest = line@.skip(i as int);
        let ch = line[i];
        assert(rest[0] == ch);
        assert(rest.drop_first() =~= line@.skip(i + 1));
        if ch == '"' {
            in_string = !in_string;
        } else if (ch == '*' || ch == ';') && !in_string {
            assert(out@ + Seq::<char>::empty() =~= out@);
            return out;
        } else {
            let ghost before = out@;
            out.push(ch);
            assert(out@ + strip_comment_spec(line@.skip(i + 1), in_string) =~= before + (seq![ch]
                + strip_comment_spec(line@.skip(i + 1), in_string)));
        }
        i += 1;
    }
    assert(strip_comment_spec(line@.skip(i as int), in_string) =~= Seq::<char>::empty());
    assert(out@ + Seq::<char>::empty() =~= out@);
    out
}

// ─── Nodes and values ────────────────────────────────────────────────────────

pub open spec fn parse_error(m: Seq<char>) -> SimErrorView {
    SimErrorView::Parse(m)
}

pub open spec fn invalid_node_text(token: Seq<char>) -> Seq<char> {
    "invalid node '"@ + token + "'"@
}

/// A node number, and the circuit grown to hold it. The largest `usize` is
/// refused: one more than it would not fit.
pub open spec fn node_spec(token: Seq<char>, c: CircuitView) -> Result<
    (usize, CircuitView),
    SimErrorView,
> {
    match parse_usize(token) {
        Some(id) => if id < usize::MAX {
            Ok(
                (
                    id,
                    CircuitView {
                        nodes: if id >= c.nodes {
                            (id + 1) as usize
                        } else {
                            c.nodes
                        },
                        ..c
                    },
                ),
            )
        } else {
            Err(parse_error(invalid_node_text(token)))
        },
        None => Err(parse_error(invalid_node_text(token))),
    }
}

/// A value token, its error as a parse error.
pub open spec fn value_spec(token: Seq<char>) -> Result<ValueView, SimErrorView> {
    match parse_value_spec(token) {
        Ok(v) => Ok(v),
        Err(m) => Err(parse_error(m)),
    }
}

fn parse_node(token: &[char], circuit: &mut Circuit) -> (r: Result<NodeId, SimError>)
    ensures
        match node_spec(token@, old(circuit)@) {
            Ok((id, c)) => r == Ok::<NodeId, SimError>(NodeId(id)) && final(circuit)@ == c,
            Err(e) => r matches Err(x) && x@ == e && final(circuit)@ == old(circuit)@,
        },
{
    match parse_usize_chars(token) {
        Some(id) => {
            if id < usize::MAX {
                circuit.ensure_node(id);
                Ok(NodeId(id))
            } else {
                Err(SimError::Parse(invalid_node_message(token)))
            }
        },
        None => Err(SimError::Parse(invalid_node_message(token))),
    }
}

fn invalid_node_message(token: &[char]) -> (s: String)
    ensures
        s@ == invalid_node_text(token@),
{
    String::from_str("invalid node '").concat(string_of(token).as_str()).concat("'")
}

fn parse_value_token(token: &[char]) -> (r: Result<Value, SimError>)
    ensures
        match value_spec(token@) {
            Ok(v) => r matches Ok(x) && x@ == v,
            Err(e) => r matches Err(x) && x@ == e,
        },
{
    match parse_value_chars(token) {
        Ok(v) => Ok(v),
        Err(m) => Err(SimError::Parse(m)),
    }
}

// ─── Elements ────────────────────────────────────────────────────────────────

/// Which list a two-terminal element goes to.
pub enum TwoTerminalKind {
    Resistor,
    Capacitor,
    Inductor,
}

pub open spec fn add_two_terminal(
    c: CircuitView,
    kind: TwoTerminalKind,
    e: TwoTerminalView,
) -> CircuitView {
    match kind {
        TwoTerminalKind::Resistor => CircuitView { resistors: c.resistors.push(e), ..c },
        TwoTerminalKind::Capacitor => CircuitView { capacitors: c.capacitors.push(e), ..c },
        TwoTerminalKind::Inductor => CircuitView { inductors: c.inductors.push(e), ..c },
    }
}

/// `Xname n1 n2 value`.
pub open spec fn two_terminal_spec(
    tokens: Seq<Seq<char>>,
    c: CircuitView,
    kind: TwoTerminalKind,
) -> Result<CircuitView, SimErrorView> {
    match node_spec(tokens[1], c) {
        Err(e) => Err(e),
        Ok((n1, c1)) => match node_spec(tokens[2], c1) {
            Err(e) => Err(e),
            Ok((n2, c2)) => match value_spec(tokens[3]) {
                Err(e) => Err(e),
                Ok(v) => Ok(
                    add_two_terminal(
                        c2,
                        kind,
                        TwoTerminalView { name: tokens[0], n1, n2, value: v },
                    ),
                ),
            },
        },
    }
}

/// Whether an element parser's outcome agrees with its specification; on an
/// error the circuit `c0` keeps its elements and models, and at most has
/// registered more nodes.
pub open spec fn step_is(
    r: Result<(), SimError>,
    c0: CircuitView,
    c: CircuitView,
    s: Result<CircuitView, SimErrorView>,
) -> bool {
    match s {
        Ok(c2) => r is Ok && c == c2,
        Err(e) => r matches Err(x) && x@ == e && c == CircuitView { nodes: c.nodes, ..c0 }
            && c.nodes >= c0.nodes,
    }
}

fn parse_two_terminal(tokens: &Vec<Vec<char>>, circuit: &mut Circuit, kind: TwoTerminalKind) -> (r:
    Result<(), SimError>)
    requires
        tokens.len() >= 4,
    ensures
        step_is(r, old(circuit)@, final(circuit)@, two_terminal_spec(views(tokens@), old(circuit)@, kind)),
{
    let ghost t = views(tokens@);
    let n1 = match parse_node(&tokens[1], circuit) {
        Ok(n) => n,
        Err(e) => {
            return Err(e);
        },
    };
    let n2 = match parse_node(&tokens[2], circuit) {
        Ok(n) => n,
        Err(e) => {
            return Err(e);
        },
    };
    let value = match parse_value_token(&tokens[3]) {
        Ok(v) => v,
        Err(e) => {
            return Err(e);
        },
    };
    let name = string_of(&tokens[0]);
    let ghost mid = circuit@;
    match kind {
        TwoTerminalKind::Resistor => {
            let e = Resistor { name, n1, n2, resistance: value };
            circuit.resistors.push(e);
            assert(circuit@.resistors =~= mid.resistors.push(e@));
        },
        TwoTerminalKind::Capacitor => {
            let e = Capacitor { name, n1, n2, capacitance: value };
            circuit.capacitors.push(e);
            assert(circuit@.capacitors =~= mid.capacitors.push(e@));
        },
        TwoTerminalKind::Inductor => {
            let e = Inductor { name, n1, n2, inductance: value };
            circuit.inductors.push(e);
            assert(circuit@.inductors =~= mid.inductors.push(e@));
        },
    }
    Ok(())
}

/// `Dname anode cathode model`.
pub open spec fn diode_spec(tokens: Seq<Seq<char>>, c: CircuitView) -> Result<
    CircuitView,
    SimErrorView,
> {
    if tokens.len() < 4 {
        Err(parse_error("Diode requires: Dname Anode Cathode Model"@))
    } else {
        match node_spec(tokens[1], c) {
            Err(e) => Err(e),
            Ok((a, c1)) => match node_spec(tokens[2], c1) {
                Err(e) => Err(e),
                Ok((k, c2)) => Ok(
                    CircuitView {
                        diodes: c2.diodes.push(
                            DiodeView { name: tokens[0], anode: a, cathode: k, model: tokens[3] },
                        ),
                        ..c2
                    },
                ),
            },
        }
    }
}

fn parse_diode(tokens: &Vec<Vec<char>>, circuit: &mut Circuit) -> (r: Result<(), SimError>)
    ensures
        step_is(r, old(circuit)@, final(circuit)@, diode_spec(views(tokens@), old(circuit)@)),
{
    if tokens.len() < 4 {
        return Err(SimError::Parse(String::from_str("Diode requires: Dname Anode Cathode Model")));
    }
    let anode = match parse_node(&tokens[1], circuit) {
        Ok(n) => n,
        Err(e) => {
            return Err(e);
        },
    };
    let cathode = match parse_node(&tokens[2], circuit) {
        Ok(n) => n,
        Err(e) => {
            return Err(e);
        },
    };
    let ghost mid = circuit@;
    let d = Diode { name: string_of(&tokens[0]), anode, cathode, model: string_of(&tokens[3]) };
    circuit.diodes.push(d);
    assert(circuit@.diodes =~= mid.diodes.push(d@));
    Ok(())
}

pub open spec fn chars_w_eq() -> Seq<char> {
    seq!['w', '=']
}

pub open spec fn chars_l_eq() -> Seq<char> {
    seq!['l', '=']
}

/// `W=` and `L=` settings among `toks`, later ones winning.
pub open spec fn mosfet_sizes(toks: Seq<Seq<char>>, w: ValueView, l: ValueView) -> Result<
    (ValueView, ValueView),
    SimErrorView,
>
    decreases toks.len(),
{
    if toks.len() == 0 {
        Ok((w, l))
    } else {
        let lower = lower_seq(toks[0]);
        if starts_with(lower, chars_w_eq()) {
            match value_spec(lower.skip(2)) {
                Err(e) => Err(e),
                Ok(v) => mosfet_sizes(toks.drop_first(), v, l),
            }
        } else if starts_with(lower, chars_l_eq()) {
            match value_spec(lower.skip(2)) {
                Err(e) => Err(e),
                Ok(v) => mosfet_sizes(toks.drop_first(), w, v),
            }
        } else {
            mosfet_sizes(toks.drop_first(), w, l)
        }
    }
}

pub open spec fn default_size() -> ValueView {
    ValueView { literal: "1e-6"@, scale: 0 }
}

/// `Mname Nd Ng Ns Nb Model [W=<w>] [L=<l>]`; W and L default to 1 µm.
pub open spec fn mosfet_spec(tokens: Seq<Seq<char>>, c: CircuitView) -> Result<
    CircuitView,
    SimErrorView,
> {
    if tokens.len() < 6 {
        Err(parse_error("MOSFET requires: Mname Nd Ng Ns Nb ModelName [W=<w>] [L=<l>]"@))
    } else {
        match node_spec(tokens[1], c) {
            Err(e) => Err(e),
            Ok((nd, c1)) => match node_spec(tokens[2], c1) {
                Err(e) => Err(e),
                Ok((ng, c2)) => match node_spec(tokens[3], c2) {
                    Err(e) => Err(e),
                    Ok((ns, c3)) => match node_spec(tokens[4], c3) {
                        Err(e) => Err(e),
                        Ok((nb, c4)) => match mosfet_sizes(
                            tokens.skip(6),
                            default_size(),
                            default_size(),
                        ) {
                            Err(e) => Err(e),
                            Ok((w, l)) => Ok(
                                CircuitView {
                                    mosfets: c4.mosfets.push(
                                        MosfetView {
                                            name: tokens[0],
                                            nd,
                                            ng,
                                            ns,
                                            nb,
                                            model: tokens[5],
                                            w,
                                            l,
                                        },
                                    ),
                                    ..c4
                                },
                            ),
                        },
                    },
                },
            },
        }
    }
}

fn parse_mosfet_sizes(tokens: &Vec<Vec<char>>) -> (r: Result<(Value, Value), SimError>)
    requires
        tokens.len() >= 6,
    ensures
        match mosfet_sizes(views(tokens@).skip(6), default_size(), default_size()) {
            Ok((w, l)) => r matches Ok((a, b)) && a@ == w && b@ == l,
            Err(e) => r matches Err(x) && x@ == e,
        },
{
    let ghost all = views(tokens@);
    let mut w = Value::plain("1e-6");
    let mut l = Value::plain("1e-6");
    let mut i: usize = 6;
    while i < tokens.len()
        invariant
            6 <= i <= tokens.len(),
            all == views(tokens@),
            mosfet_sizes(all.skip(6), default_size(), default_size()) == mosfet_sizes(
                all.skip(i as int),
                w@,
                l@,
            ),
        decreases tokens.len() - i,
    {
        let ghost rest = all.skip(i as int);
        assert(rest[0] == tokens@[i as int]@);
        assert(rest.drop_first() =~= all.skip(i + 1));
        let lower = lowercase(&tokens[i]);
        if has_prefix(&lower, &['w', '=']) {
            let rest_chars = slice_vec(&lower, 2, lower.len());
            assert(rest_chars@ =~= lower@.skip(2));
            match parse_value_token(&rest_chars) {
                Ok(v) => {
                    w = v;
                },
                Err(e) => {
                    return Err(e);
                },
            }
        } else if has_prefix(&lower, &['l', '=']) {
            let rest_chars = slice_vec(&lower, 2, lower.len());
            assert(rest_chars@ =~= lower@.skip(2));
            match parse_value_token(&rest_chars) {
                Ok(v) => {
                    l = v;
                },
                Err(e) => {
                    return Err(e);
                },
            }
        }
        i += 1;
    }
    assert(all.skip(i as int) =~= Seq::<Seq<char>>::empty());
    Ok((w, l))
}

fn parse_mosfet(tokens: &Vec<Vec<char>>, circuit: &mut Circuit) -> (r: Result<(), SimError>)
    ensures
        step_is(r, old(circuit)@, final(circuit)@, mosfet_spec(views(tokens@), old(circuit)@)),
{
    if tokens.len() < 6 {
        return Err(
            SimError::Parse(
                String::from_str("MOSFET requires: Mname Nd Ng Ns Nb ModelName [W=<w>] [L=<l>]"),
            ),
        );
    }
    let nd = match parse_node(&tokens[1], circuit) {
        Ok(n) => n,
        Err(e) => {
            return Err(e);
        },
    };
    let ng = match parse_node(&tokens[2], circuit) {
        Ok(n) => n,
        Err(e) => {
            return Err(e);
        },
    };
    let ns = match parse_node(&tokens[3], circuit) {
        Ok(n) => n,
        Err(e) => {
            return Err(e);
        },
    };
    let nb = match parse_node(&tokens[4], circuit) {
        Ok(n) => n,
        Err(e) => {
            return Err(e);
        },
    };
    let (w, l) = match parse_mosfet_sizes(tokens) {
        Ok(p) => p,
        Err(e) => {
            return Err(e);
        },
    };
    let ghost mid = circuit@;
    let m = Mosfet {
        name: string_of(&tokens[0]),
        nd,
        ng,
        ns,
        nb,
        model: string_of(&tokens[5]),
        w,
        l,
    };
    circuit.mosfets.push(m);
    assert(circuit@.mosfets =~= mid.mosfets.push(m@));
    Ok(())
}

} // verus!

verus! {

// ─── Voltage sources ─────────────────────────────────────────────────────────

/// The first `n` tokens as values, or the first error among them.
pub open spec fn values_spec(toks: Seq<Seq<char>>, n: nat) -> Result<Seq<ValueView>, SimErrorView>
    decreases n,
{
    if n == 0 {
        Ok(Seq::empty())
    } else {
        match values_spec(toks, (n - 1) as nat) {
            Err(e) => Err(e),
            Ok(vs) => match value_spec(toks[n - 1]) {
                Err(e) => Err(e),
                Ok(v) => Ok(vs.push(v)),
            },
        }
    }
}

proof fn lemma_values_spec(toks: Seq<Seq<char>>, k: nat, n: nat)
    requires
        k <= n,
    ensures
        values_spec(toks, k) is Err ==> values_spec(toks, n) == values_spec(toks, k),
        values_spec(toks, n) matches Ok(vs) ==> vs.len() == n,
    decreases n,
{
    if n > 0 {
        if k < n {
            lemma_values_spec(toks, k, (n - 1) as nat);
        }
        lemma_values_spec(toks, (n - 1) as nat, (n - 1) as nat);
    }
}

fn parse_values(toks: &Vec<Vec<char>>, n: usize) -> (r: Result<Vec<Value>, SimError>)
    requires
        n <= toks.len(),
    ensures
        match values_spec(views(toks@), n as nat) {
            Ok(vs) => r matches Ok(out) && out@.map_values(|v: Value| v@) == vs && out.len() == n,
            Err(e) => r matches Err(x) && x@ == e,
        },
{
    let mut out: Vec<Value> = Vec::new();
    let mut i: usize = 0;
    while i < n
        invariant
            i <= n <= toks.len(),
            out.len() == i,
            values_spec(views(toks@), i as nat) matches Ok(vs) && out@.map_values(|v: Value| v@)
                == vs,
        decreases n - i,
    {
        proof {
            lemma_values_spec(views(toks@), (i + 1) as nat, n as nat);
        }
        assert(views(toks@)[i as int] == toks@[i as int]@);
        match parse_value_token(&toks[i]) {
            Ok(v) => {
                let ghost before = out@;
                out.push(v);
                assert(out@.map_values(|v: Value| v@) =~= before.map_values(|v: Value| v@).push(
                    v@,
                ));
            },
            Err(e) => {
                return Err(e);
            },
        }
        i += 1;
    }
    Ok(out)
}

pub open spec fn word_pulse() -> Seq<char> {
    seq!['p', 'u', 'l', 's', 'e']
}

pub open spec fn word_sin() -> Seq<char> {
    seq!['s', 'i', 'n']
}

pub open spec fn word_dc() -> Seq<char> {
    seq!['d', 'c']
}

/// `tokens[i..]` joined by spaces, lower-cased, with `word`, the parentheses
/// and the commas taken out (commas becoming spaces), split at white space.
pub open spec fn waveform_args(tokens: Seq<Seq<char>>, i: int, word: Seq<char>) -> Seq<Seq<char>> {
    let remainder = join(tokens.skip(i), seq![' ']);
    let cleaned = replace_all(
        replace_all(
            replace_all(replace_all(lower_seq(remainder), word, Seq::empty()), seq!['('], Seq::empty()),
            seq![')'],
            Seq::empty(),
        ),
        seq![','],
        seq![' '],
    );
    split_ws(cleaned)
}

fn waveform_arguments(tokens: &Vec<Vec<char>>, i: usize, word: &[char]) -> (out: Vec<Vec<char>>)
    requires
        i <= tokens.len(),
        word.len() > 0,
    ensures
        views(out@) == waveform_args(views(tokens@), i as int, word@),
{
    let space: [char; 1] = [' '];
    let empty: [char; 0] = [];
    let open: [char; 1] = ['('];
    let close: [char; 1] = [')'];
    let comma: [char; 1] = [','];
    assert(space@ =~= seq![' ']);
    assert(empty@ =~= Seq::<char>::empty());
    assert(open@ =~= seq!['(']);
    assert(close@ =~= seq![')']);
    assert(comma@ =~= seq![',']);
    let remainder = join_from(tokens, i, &space);
    let lower = lowercase(&remainder);
    let a = replace_chars(&lower, word, &empty);
    let b = replace_chars(&a, &open, &empty);
    let c = replace_chars(&b, &close, &empty);
    let d = replace_chars(&c, &comma, &space);
    split_whitespace(&d)
}

pub open spec fn pulse_spec(args: Seq<Seq<char>>) -> Result<PulseView, SimErrorView> {
    if args.len() < 7 {
        Err(parse_error("PULSE source requires 7 parameters: V1 V2 TD TR TF PW PER"@))
    } else {
        match values_spec(args, 7) {
            Err(e) => Err(e),
            Ok(v) => Ok(
                PulseView { v1: v[0], v2: v[1], td: v[2], tr: v[3], tf: v[4], pw: v[5], per: v[6] },
            ),
        }
    }
}

pub open spec fn zero_value() -> ValueView {
    ValueView { literal: "0.0"@, scale: 0 }
}

pub open spec fn sine_spec(args: Seq<Seq<char>>) -> Result<SineView, SimErrorView> {
    if args.len() < 3 {
        Err(parse_error("SIN source requires at least 3 parameters: VO VA FREQ [TD [THETA]]"@))
    } else {
        match values_spec(args, 3) {
            Err(e) => Err(e),
            Ok(v) => {
                let td = if args.len() > 3 {
                    value_spec(args[3])
                } else {
                    Ok(zero_value())
                };
                match td {
                    Err(e) => Err(e),
                    Ok(td) => {
                        let theta = if args.len() > 4 {
                            value_spec(args[4])
                        } else {
                            Ok(zero_value())
                        };
                        match theta {
                            Err(e) => Err(e),
                            Ok(theta) => Ok(SineView { vo: v[0], va: v[1], freq: v[2], td, theta }),
                        }
                    },
                }
            },
        }
    }
}

/// The source's settings from token `i` on: a DC value, a pulse, a sine.
#[verifier::opaque]
pub open spec fn source_scan(tokens: Seq<Seq<char>>, i: int, dc: Option<ValueView>) -> Result<
    (Option<ValueView>, Option<PulseView>, Option<SineView>),
    SimErrorView,
>
    decreases tokens.len() - i,
{
    if i < 0 || i >= tokens.len() {
        Ok((dc, None, None))
    } else {
        let tl = lower_seq(tokens[i]);
        if tl == word_dc() {
            if i + 1 >= tokens.len() {
                Err(parse_error("voltage source missing DC value"@))
            } else {
                match value_spec(tokens[i + 1]) {
                    Err(e) => Err(e),
                    Ok(v) => source_scan(tokens, i + 2, Some(v)),
                }
            }
        } else if starts_with(tl, word_pulse()) {
            match pulse_spec(waveform_args(tokens, i, word_pulse())) {
                Err(e) => Err(e),
                Ok(p) => Ok((dc, Some(p), None)),
            }
        } else if starts_with(tl, word_sin()) {
            match sine_spec(waveform_args(tokens, i, word_sin())) {
                Err(e) => Err(e),
                Ok(s) => Ok((dc, None, Some(s))),
            }
        } else if i == 3 && tokens.len() == 4 {
            match value_spec(tokens[3]) {
                Err(e) => Err(e),
                Ok(v) => Ok((Some(v), None, None)),
            }
        } else {
            Err(parse_error("unexpected token '"@ + tokens[i] + "' in voltage source definition"@))
        }
    }
}

/// The DC value: as given, else where the pulse or the sine starts, else 0.
pub open spec fn final_voltage(
    dc: Option<ValueView>,
    pulse: Option<PulseView>,
    sine: Option<SineView>,
) -> ValueView {
    match (dc, pulse, sine) {
        (Some(v), _, _) => v,
        (None, Some(p), _) => p.v1,
        (None, None, Some(s)) => s.vo,
        (None, None, None) => zero_value(),
    }
}

/// `Vname n+ n- [DC] value | PULSE(...) | SIN(...)`.
pub open spec fn source_spec(tokens: Seq<Seq<char>>, c: CircuitView) -> Result<
    CircuitView,
    SimErrorView,
> {
    match node_spec(tokens[1], c) {
        Err(e) => Err(e),
        Ok((n1, c1)) => match node_spec(tokens[2], c1) {
            Err(e) => Err(e),
            Ok((n2, c2)) => match source_scan(tokens, 3, None) {
                Err(e) => Err(e),
                Ok((dc, pulse, sine)) => Ok(
                    CircuitView {
                        voltage_sources: c2.voltage_sources.push(
                            VoltageSourceView {
                                name: tokens[0],
                                n1,
                                n2,
                                voltage: final_voltage(dc, pulse, sine),
                                pulse,
                                sine,
                            },
                        ),
                        ..c2
                    },
                ),
            },
        },
    }
}

/// The values read from the first `n` tokens are those of each token, in
/// order; they read when each token does.
proof fn lemma_values_each(toks: Seq<Seq<char>>, n: nat)
    ensures
        (values_spec(toks, n) is Ok) == (forall|i: int|
            0 <= i < n ==> #[trigger] parse_value_spec(toks[i]) is Ok),
        values_spec(toks, n) matches Ok(vs) ==> vs.len() == n && forall|i: int|
            0 <= i < n ==> #[trigger] parse_value_spec(toks[i]) == Ok::<ValueView, Seq<char>>(
                vs[i],
            ),
    decreases n,
{
    if n > 0 {
        lemma_values_each(toks, (n - 1) as nat);
        let m = (n - 1) as int;
        if values_spec(toks, n) is Ok {
            let vs = values_spec(toks, n)->Ok_0;
            let prev = values_spec(toks, (n - 1) as nat)->Ok_0;
            assert(vs == prev.push(vs[m]));
            assert forall|i: int| 0 <= i < n implies #[trigger] parse_value_spec(toks[i])
                == Ok::<ValueView, Seq<char>>(vs[i]) by {
                if i < m {
                    assert(vs[i] == prev[i]);
                }
            }
        } else {
            if values_spec(toks, (n - 1) as nat) is Ok {
                assert(parse_value_spec(toks[m]) is Err);
            } else {
                let i = choose|i: int| 0 <= i < n - 1 && !(parse_value_spec(toks[i]) is Ok);
                assert(!(parse_value_spec(toks[i]) is Ok));
            }
        }
    }
}

/// A pulse takes its seven settings in the order they are written: V1, V2,
/// TD, TR, TF, PW, PER, each read as a value; it reads exactly when all seven
/// do.
pub proof fn law_pulse_settings_in_order(args: Seq<Seq<char>>)
    requires
        args.len() >= 7,
    ensures
        (pulse_spec(args) is Ok) == (forall|i: int|
            0 <= i < 7 ==> #[trigger] parse_value_spec(args[i]) is Ok),
        pulse_spec(args) matches Ok(p) ==> {
            &&& parse_value_spec(args[0]) == Ok::<ValueView, Seq<char>>(p.v1)
            &&& parse_value_spec(args[1]) == Ok::<ValueView, Seq<char>>(p.v2)
            &&& parse_value_spec(args[2]) == Ok::<ValueView, Seq<char>>(p.td)
            &&& parse_value_spec(args[3]) == Ok::<ValueView, Seq<char>>(p.tr)
            &&& parse_value_spec(args[4]) == Ok::<ValueView, Seq<char>>(p.tf)
            &&& parse_value_spec(args[5]) == Ok::<ValueView, Seq<char>>(p.pw)
            &&& parse_value_spec(args[6]) == Ok::<ValueView, Seq<char>>(p.per)
        },
{
    lemma_values_each(args, 7);
    if values_spec(args, 7) is Ok {
        let vs = values_spec(args, 7)->Ok_0;
        assert(parse_value_spec(args[0]) == Ok::<ValueView, Seq<char>>(vs[0]));
        assert(parse_value_spec(args[1]) == Ok::<ValueView, Seq<char>>(vs[1]));
        assert(parse_value_spec(args[2]) == Ok::<ValueView, Seq<char>>(vs[2]));
        assert(parse_value_spec(args[3]) == Ok::<ValueView, Seq<char>>(vs[3]));
        assert(parse_value_spec(args[4]) == Ok::<ValueView, Seq<char>>(vs[4]));
        assert(parse_value_spec(args[5]) == Ok::<ValueView, Seq<char>>(vs[5]));
        assert(parse_value_spec(args[6]) == Ok::<ValueView, Seq<char>>(vs[6]));
    }
}

/// A sine takes its settings in the order they are written: VO, VA, FREQ,
/// then TD and THETA when given (0 otherwise), each read as a value.
pub proof fn law_sine_settings_in_order(args: Seq<Seq<char>>)
    requires
        args.len() >= 3,
    ensures
        sine_spec(args) matches Ok(sn) ==> {
            &&& parse_value_spec(args[0]) == Ok::<ValueView, Seq<char>>(sn.vo)
            &&& parse_value_spec(args[1]) == Ok::<ValueView, Seq<char>>(sn.va)
            &&& parse_value_spec(args[2]) == Ok::<ValueView, Seq<char>>(sn.freq)
            &&& args.len() > 3 ==> parse_value_spec(args[3]) == Ok::<ValueView, Seq<char>>(sn.td)
            &&& args.len() <= 3 ==> sn.td == zero_value()
            &&& args.len() > 4 ==> parse_value_spec(args[4]) == Ok::<ValueView, Seq<char>>(
                sn.theta,
            )
            &&& args.len() <= 4 ==> sn.theta == zero_value()
        },
{
    lemma_values_each(args, 3);
    if values_spec(args, 3) is Ok {
        let vs = values_spec(args, 3)->Ok_0;
        assert(parse_value_spec(args[0]) == Ok::<ValueView, Seq<char>>(vs[0]));
        assert(parse_value_spec(args[1]) == Ok::<ValueView, Seq<char>>(vs[1]));
        assert(parse_value_spec(args[2]) == Ok::<ValueView, Seq<char>>(vs[2]));
    }
}

/// A source line with a pulse and no `DC` setting gets the pulse's first
/// level, V1, as its voltage.
pub proof fn law_pulse_source_starts_at_v1(tokens: Seq<Seq<char>>, c: CircuitView)
    requires
        tokens.len() >= 3,
        forall|j: int| 3 <= j < tokens.len() ==> lower_seq(#[trigger] tokens[j]) != word_dc(),
    ensures
        source_spec(tokens, c) matches Ok(c2) ==> (c2.voltage_sources.last().pulse matches Some(p)
            ==> c2.voltage_sources.last().voltage == p.v1),
{
    reveal(source_scan);
    if 3 < tokens.len() {
        assert(lower_seq(tokens[3]) != word_dc());
    }
}

fn parse_pulse(tokens: &Vec<Vec<char>>, i: usize) -> (r: Result<Pulse, SimError>)
    requires
        i <= tokens.len(),
    ensures
        match pulse_spec(waveform_args(views(tokens@), i as int, word_pulse())) {
            Ok(p) => r matches Ok(x) && x@ == p,
            Err(e) => r matches Err(x) && x@ == e,
        },
{
    let args = waveform_arguments(tokens, i, &['p', 'u', 'l', 's', 'e']);
    if args.len() < 7 {
        return Err(
            SimError::Parse(
                String::from_str("PULSE source requires 7 parameters: V1 V2 TD TR TF PW PER"),
            ),
        );
    }
    let v = match parse_values(&args, 7) {
        Ok(v) => v,
        Err(e) => {
            return Err(e);
        },
    };
    proof {
        lemma_values_spec(views(args@), 7, 7);
        let vs = v@.map_values(|x: Value| x@);
        assert(vs[0] == v@[0]@ && vs[1] == v@[1]@ && vs[2] == v@[2]@ && vs[3] == v@[3]@);
        assert(vs[4] == v@[4]@ && vs[5] == v@[5]@ && vs[6] == v@[6]@);
    }
    Ok(
        Pulse {
            v1: v[0].copy(),
            v2: v[1].copy(),
            td: v[2].copy(),
            tr: v[3].copy(),
            tf: v[4].copy(),
            pw: v[5].copy(),
            per: v[6].copy(),
        },
    )
}

fn parse_sine(tokens: &Vec<Vec<char>>, i: usize) -> (r: Result<Sine, SimError>)
    requires
        i <= tokens.len(),
    ensures
        match sine_spec(waveform_args(views(tokens@), i as int, word_sin())) {
            Ok(s) => r matches Ok(x) && x@ == s,
            Err(e) => r matches Err(x) && x@ == e,
        },
{
    let args = waveform_arguments(tokens, i, &['s', 'i', 'n']);
    if args.len() < 3 {
        return Err(
            SimError::Parse(
                String::from_str(
                    "SIN source requires at least 3 parameters: VO VA FREQ [TD [THETA]]",
                ),
            ),
        );
    }
    let v = match parse_values(&args, 3) {
        Ok(v) => v,
        Err(e) => {
            return Err(e);
        },
    };
    let td = if args.len() > 3 {
        assert(views(args@)[3] == args@[3]@);
        match parse_value_token(&args[3]) {
            Ok(x) => x,
            Err(e) => {
                return Err(e);
            },
        }
    } else {
        Value::plain("0.0")
    };
    let theta = if args.len() > 4 {
        assert(views(args@)[4] == args@[4]@);
        match parse_value_token(&args[4]) {
            Ok(x) => x,
            Err(e) => {
                return Err(e);
            },
        }
    } else {
        Value::plain("0.0")
    };
    proof {
        let vs = v@.map_values(|x: Value| x@);
        assert(vs[0] == v@[0]@ && vs[1] == v@[1]@ && vs[2] == v@[2]@);
    }
    Ok(Sine { vo: v[0].copy(), va: v[1].copy(), freq: v[2].copy(), td, theta })
}

pub open spec fn opt_value_view(o: Option<Value>) -> Option<ValueView> {
    match o {
        Some(v) => Some(v@),
        None => None,
    }
}

/// What one setting of a voltage source line turned out to be.
enum SourceSetting {
    /// `DC value`; the scan goes on at the token after the value.
    Dc(Value),
    Pulse(Pulse),
    Sine(Sine),
    /// The lone value of a four-token line.
    Plain(Value),
}

fn source_setting(tokens: &Vec<Vec<char>>, i: usize) -> (r: Result<SourceSetting, SimError>)
    requires
        3 <= i < tokens.len(),
    ensures
        forall|d: Option<ValueView>|
            match r {
                Ok(SourceSetting::Dc(v)) => i + 1 < tokens.len() && #[trigger] source_scan(
                    views(tokens@),
                    i as int,
                    d,
                ) == source_scan(views(tokens@), i + 2, Some(v@)),
                Ok(SourceSetting::Pulse(p)) => #[trigger] source_scan(views(tokens@), i as int, d)
                    == Ok::<_, SimErrorView>((d, Some(p@), None::<SineView>)),
                Ok(SourceSetting::Sine(x)) => #[trigger] source_scan(views(tokens@), i as int, d)
                    == Ok::<_, SimErrorView>((d, None::<PulseView>, Some(x@))),
                Ok(SourceSetting::Plain(v)) => #[trigger] source_scan(views(tokens@), i as int, d)
                    == Ok::<_, SimErrorView>((Some(v@), None::<PulseView>, None::<SineView>)),
                Err(e) => #[trigger] source_scan(views(tokens@), i as int, d) == Err::<
                    (Option<ValueView>, Option<PulseView>, Option<SineView>),
                    SimErrorView,
                >(e@),
            },
{
    let ghost all = views(tokens@);
    assert(all[i as int] == tokens@[i as int]@);
    reveal(source_scan);
    let tl = lowercase(&tokens[i]);
    if chars_eq(&tl, &['d', 'c']) {
        if i + 1 >= tokens.len() {
            return Err(SimError::Parse(String::from_str("voltage source missing DC value")));
        }
        assert(all[i + 1] == tokens@[i + 1]@);
        match parse_value_token(&tokens[i + 1]) {
            Ok(v) => Ok(SourceSetting::Dc(v)),
            Err(e) => Err(e),
        }
    } else if has_prefix(&tl, &['p', 'u', 'l', 's', 'e']) {
        match parse_pulse(tokens, i) {
            Ok(p) => Ok(SourceSetting::Pulse(p)),
            Err(e) => Err(e),
        }
    } else if has_prefix(&tl, &['s', 'i', 'n']) {
        match parse_sine(tokens, i) {
            Ok(x) => Ok(SourceSetting::Sine(x)),
            Err(e) => Err(e),
        }
    } else if i == 3 && tokens.len() == 4 {
        assert(all[3] == tokens@[3]@);
        match parse_value_token(&tokens[3]) {
            Ok(v) => Ok(SourceSetting::Plain(v)),
            Err(e) => Err(e),
        }
    } else {
        Err(
            SimError::Parse(
                String::from_str("unexpected token '").concat(string_of(&tokens[i]).as_str()).concat(
                    "' in voltage source definition",
                ),
            ),
        )
    }
}

fn parse_voltage_source(tokens: &Vec<Vec<char>>, circuit: &mut Circuit) -> (r: Result<
    (),
    SimError,
>)
    requires
        tokens.len() >= 4,
    ensures
        step_is(r, old(circuit)@, final(circuit)@, source_spec(views(tokens@), old(circuit)@)),
{
    let ghost all = views(tokens@);
    let n1 = match parse_node(&tokens[1], circuit) {
        Ok(n) => n,
        Err(e) => {
            return Err(e);
        },
    };
    let ghost c1 = circuit@;
    let n2 = match parse_node(&tokens[2], circuit) {
        Ok(n) => n,
        Err(e) => {
            return Err(e);
        },
    };
    assert(all[1] == tokens@[1]@ && all[2] == tokens@[2]@);
    let ghost c2 = circuit@;
    let mut dc: Option<Value> = None;
    let mut pulse: Option<Pulse> = None;
    let mut sine: Option<Sine> = None;
    let mut i: usize = 3;
    loop
        invariant_except_break
            3 <= i,
            all == views(tokens@),
            tokens.len() >= 4,
            pulse is None,
            sine is None,
            source_scan(all, 3, None) == source_scan(all, i as int, opt_value_view(dc)),
            node_spec(all[1], old(circuit)@) == Ok::<_, SimErrorView>((n1.0, c1)),
            node_spec(all[2], c1) == Ok::<_, SimErrorView>((n2.0, c2)),
            circuit@ == c2,
        ensures
            all == views(tokens@),
            source_scan(all, 3, None) == Ok::<_, SimErrorView>(
                (
                    opt_value_view(dc),
                    match pulse {
                        Some(x) => Some(x@),
                        None => None,
                    },
                    match sine {
                        Some(x) => Some(x@),
                        None => None,
                    },
                ),
            ),
        decreases tokens.len() - i,
    {
        if i >= tokens.len() {
            proof {
                reveal(source_scan);
            }
            break;
        }
        match source_setting(tokens, i) {
            Ok(SourceSetting::Dc(v)) => {
                assert(source_scan(all, i as int, opt_value_view(dc)) == source_scan(
                    all,
                    i + 2,
                    Some(v@),
                ));
                dc = Some(v);
                i += 2;
            },
            Ok(SourceSetting::Pulse(p)) => {
                assert(source_scan(all, i as int, opt_value_view(dc)) == Ok::<_, SimErrorView>(
                    (opt_value_view(dc), Some(p@), None::<SineView>),
                ));
                pulse = Some(p);
                break;
            },
            Ok(SourceSetting::Sine(x)) => {
                assert(source_scan(all, i as int, opt_value_view(dc)) == Ok::<_, SimErrorView>(
                    (opt_value_view(dc), None::<PulseView>, Some(x@)),
                ));
                sine = Some(x);
                break;
            },
            Ok(SourceSetting::Plain(v)) => {
                assert(source_scan(all, i as int, opt_value_view(dc)) == Ok::<_, SimErrorView>(
                    (Some(v@), None::<PulseView>, None::<SineView>),
                ));
                dc = Some(v);
                break;
            },
            Err(e) => {
                assert(source_scan(all, i as int, opt_value_view(dc)) == Err::<
                    (Option<ValueView>, Option<PulseView>, Option<SineView>),
                    SimErrorView,
                >(e@));
                return Err(e);
            },
        }
    }
    let voltage = match (&dc, &pulse, &sine) {
        (Some(v), _, _) => v.copy(),
        (None, Some(p), _) => p.v1.copy(),
        (None, None, Some(s)) => s.vo.copy(),
        (None, None, None) => Value::plain("0.0"),
    };
    let ghost mid = circuit@;
    let src = VoltageSource { name: string_of(&tokens[0]), n1, n2, voltage, pulse, sine };
    circuit.voltage_sources.push(src);
    assert(circuit@.voltage_sources =~= mid.voltage_sources.push(src@));
    Ok(())
}

} // verus!

verus! {

// ─── Dot commands ────────────────────────────────────────────────────────────

/// Whether a character is numeric in Unicode's sense (categories Nd, Nl, No),
/// as `char::is_numeric` decides.
pub uninterp spec fn numeric_char(c: char) -> bool;

/// `char::is_numeric`. Its result is named; of ASCII characters exactly the
/// digits are numeric. Which other characters are is Unicode's table, not
/// stated here.
#[verifier::external_body]
fn char_is_numeric(c: char) -> (r: bool)
    ensures
        r == numeric_char(c),
        (c as u32) < 128 ==> (r == crate::text::is_digit(c)),
{
    c.is_numeric()
}

/// A character that can continue a model parameter's number.
pub open spec fn param_char(c: char) -> bool {
    numeric_char(c) || c == '.' || c == 'e' || c == '-'
}

/// The length of the number at the start of `s`.
pub open spec fn param_run(s: Seq<char>) -> nat
    decreases s.len(),
{
    if s.len() == 0 || !param_char(s[0]) {
        0
    } else {
        1 + param_run(s.drop_first())
    }
}

proof fn lemma_param_run(s: Seq<char>, k: int)
    requires
        0 <= k <= s.len(),
        forall|j: int| 0 <= j < k ==> param_char(s[j]),
        k == s.len() || !param_char(s[k]),
    ensures
        param_run(s) == k,
    decreases k,
{
    if k > 0 {
        lemma_param_run(s.drop_first(), k - 1);
    }
}

/// Where the words of a card body end: `true` at the last character of each
/// word of `t`, as the words stand in `join(t, "")`.
pub open spec fn word_ends(t: Seq<Seq<char>>) -> Seq<bool>
    decreases t.len(),
{
    if t.len() == 0 {
        Seq::empty()
    } else {
        word_ends(t.drop_last()) + Seq::new(t.last().len(), |i: int| i == t.last().len() - 1)
    }
}

proof fn lemma_word_ends_len(t: Seq<Seq<char>>)
    ensures
        word_ends(t).len() == join(t, Seq::empty()).len(),
    decreases t.len(),
{
    if t.len() > 0 {
        lemma_word_ends_len(t.drop_last());
        if t.len() == 1 {
            assert(join(t.drop_last(), Seq::empty()) =~= Seq::<char>::empty());
        }
    }
}

/// The power of ten of an SI suffix letter at `q` that follows a model
/// parameter's number: the letter must end its word or stand just before the
/// card's `,` or `)`; 0 when there is none.
pub open spec fn param_scale(body: Seq<char>, ends: Seq<bool>, q: int) -> i32 {
    if 0 <= q < body.len() && (ends[q] || (q + 1 < body.len() && (body[q + 1] == ','
        || body[q + 1] == ')'))) {
        match suffix_scale(body[q]) {
            Some(k) => k,
            None => 0,
        }
    } else {
        0
    }
}

/// `param` in a model card body (its words joined with nothing between
/// them), and the number that follows it, scaled by an SI suffix letter that
/// ends it; a number a float parser rejects counts as zero.
pub open spec fn model_param(body: Seq<char>, ends: Seq<bool>, param: Seq<char>) -> Option<
    ValueView,
> {
    match find(body, param) {
        None => None,
        Some(idx) => {
            let start = idx + param.len();
            let rest = body.skip(start as int);
            let lit = rest.take(param_run(rest) as int);
            Some(
                if literal_ext(lit) is Some {
                    ValueView {
                        literal: lit,
                        scale: param_scale(body, ends, (start + param_run(rest)) as int),
                    }
                } else {
                    zero_value()
                },
            )
        },
    }
}

/// Where the words `t[from..]` end, as `word_ends` gives it.
fn word_ends_from(t: &Vec<Vec<char>>, from: usize) -> (out: Vec<bool>)
    requires
        from <= t.len(),
    ensures
        out@ == word_ends(views(t@).skip(from as int)),
{
    let mut out: Vec<bool> = Vec::new();
    let mut i = from;
    assert(views(t@).subrange(from as int, from as int) =~= Seq::<Seq<char>>::empty());
    while i < t.len()
        invariant
            from <= i <= t.len(),
            out@ == word_ends(views(t@).subrange(from as int, i as int)),
        decreases t.len() - i,
    {
        let w = &t[i];
        let ghost before = out@;
        let ghost marks = Seq::new(w@.len(), |j: int| j == w@.len() - 1);
        let mut j: usize = 0;
        while j < w.len()
            invariant
                j <= w.len(),
                marks == Seq::new(w@.len(), |j: int| j == w@.len() - 1),
                out@ == before + marks.take(j as int),
            decreases w.len() - j,
        {
            out.push(j + 1 == w.len());
            assert(marks.take(j + 1) =~= marks.take(j as int).push(marks[j as int]));
            j += 1;
        }
        proof {
            assert(marks.take(j as int) =~= marks);
            let s2 = views(t@).subrange(from as int, i + 1);
            assert(s2.drop_last() =~= views(t@).subrange(from as int, i as int));
            assert(s2.last() == t@[i as int]@);
        }
        i += 1;
    }
    assert(views(t@).subrange(from as int, t.len() as int) =~= views(t@).skip(from as int));
    out
}

fn extract_model_param(body: &[char], ends: &[bool], param: &[char]) -> (r: Option<Value>)
    requires
        ends@.len() == body@.len(),
    ensures
        match model_param(body@, ends@, param@) {
            Some(v) => r matches Some(x) && x@ == v,
            None => r is None,
        },
{
    match find_chars(body, param) {
        None => None,
        Some(idx) => {
            assert(idx + param@.len() <= body@.len());
            assert(body@.len() == body.len() && param@.len() == param.len());
            let start = idx + param.len();
            let ghost rest = body@.skip(start as int);
            let mut end = start;
            while end < body.len() && (char_is_numeric(body[end]) || body[end] == '.' || body[end]
                == 'e' || body[end] == '-')
                invariant
                    start <= end <= body.len(),
                    forall|j: int| start <= j < end ==> param_char(body@[j]),
                decreases body.len() - end,
            {
                end += 1;
            }
            proof {
                assert forall|j: int| 0 <= j < end - start implies param_char(rest[j]) by {
                    assert(rest[j] == body@[j + start]);
                }
                if end < body.len() {
                    assert(rest[end - start] == body@[end as int]);
                }
                lemma_param_run(rest, end - start);
                assert(rest.take(end - start) =~= body@.subrange(start as int, end as int));
            }
            let sub = slice_vec(body, start, end);
            let mut scale: i32 = 0;
            if end < body.len() && (ends[end] || (end + 1 < body.len() && (body[end + 1] == ','
                || body[end + 1] == ')'))) {
                match suffix_multiplier(body[end]) {
                    Ok(k) => {
                        scale = k;
                    },
                    Err(_) => {},
                }
            }
            assert(scale == param_scale(body@, ends@, end as int));
            match crate::units::decode(&sub, 0) {
                Some(_) => Some(Value { literal: string_of(&sub), scale }),
                None => Some(Value::plain("0.0")),
            }
        },
    }
}

/// A default for a missing parameter.
pub open spec fn or_value(v: Option<ValueView>, d: ValueView) -> ValueView {
    match v {
        Some(x) => x,
        None => d,
    }
}

pub open spec fn plain(lit: Seq<char>) -> ValueView {
    ValueView { literal: lit, scale: 0 }
}

/// Circuit and analyses, as the reader goes.
pub struct ParseState {
    pub circuit: CircuitView,
    pub analysis: AnalysisView,
}

/// `.model name D(...)` / `NMOS(...)` / `PMOS(...)`.
pub open spec fn model_spec(tokens: Seq<Seq<char>>, st: ParseState) -> Result<
    ParseState,
    SimErrorView,
> {
    if tokens.len() < 3 {
        Err(parse_error(".model requires at least a name and type"@))
    } else {
        let name = tokens[1];
        let tt = lower_seq(tokens[2]);
        let body = lower_seq(join(tokens.skip(2), Seq::empty()));
        let ends = word_ends(tokens.skip(2));
        if starts_with(tt, seq!['d']) {
            let m = DiodeModelView {
                is: or_value(model_param(body, ends, seq!['i', 's', '=']), plain("1e-14"@)),
                n: or_value(model_param(body, ends, seq!['n', '=']), plain("1.0"@)),
            };
            Ok(
                ParseState {
                    circuit: CircuitView {
                        diode_models: st.circuit.diode_models.insert(name, m),
                        ..st.circuit
                    },
                    ..st
                },
            )
        } else if starts_with(tt, seq!['n', 'm', 'o', 's']) || starts_with(
            tt,
            seq!['p', 'm', 'o', 's'],
        ) {
            let vth0 = match model_param(body, ends, seq!['v', 't', 'h', '0', '=']) {
                Some(v) => v,
                None => or_value(model_param(body, ends, seq!['v', 't', 'o', '=']), plain("0.7"@)),
            };
            let m = MosfetModelView {
                kind: if starts_with(tt, seq!['n', 'm', 'o', 's']) {
                    MosfetType::Nmos
                } else {
                    MosfetType::Pmos
                },
                kp: or_value(model_param(body, ends, seq!['k', 'p', '=']), plain("20e-6"@)),
                vth0,
                lambda: or_value(
                    model_param(body, ends, seq!['l', 'a', 'm', 'b', 'd', 'a', '=']),
                    plain("0.0"@),
                ),
                gamma: or_value(model_param(body, ends, seq!['g', 'a', 'm', 'm', 'a', '=']), plain("0.0"@)),
                phi: or_value(model_param(body, ends, seq!['p', 'h', 'i', '=']), plain("0.6"@)),
            };
            Ok(
                ParseState {
                    circuit: CircuitView {
                        mosfet_models: st.circuit.mosfet_models.insert(name, m),
                        ..st.circuit
                    },
                    ..st
                },
            )
        } else {
            Err(parse_error("unknown .model type '"@ + tokens[2] + "' — supported: D, NMOS, PMOS"@))
        }
    }
}

fn param_or(body: &[char], ends: &[bool], param: &[char], default: &str) -> (v: Value)
    requires
        ends@.len() == body@.len(),
    ensures
        v@ == or_value(model_param(body@, ends@, param@), plain(default@)),
{
    match extract_model_param(body, ends, param) {
        Some(v) => v,
        None => Value::plain(default),
    }
}

fn parse_model(tokens: &Vec<Vec<char>>, circuit: &mut Circuit, Ghost(st): Ghost<ParseState>) -> (r:
    Result<(), SimError>)
    requires
        old(circuit)@ == st.circuit,
    ensures
        match model_spec(views(tokens@), st) {
            Ok(s2) => r is Ok && final(circuit)@ == s2.circuit,
            Err(e) => r matches Err(x) && x@ == e && final(circuit)@ == old(circuit)@,
        },
{
    let ghost all = views(tokens@);
    if tokens.len() < 3 {
        return Err(SimError::Parse(String::from_str(".model requires at least a name and type")));
    }
    assert(all[1] == tokens@[1]@ && all[2] == tokens@[2]@);
    let name = string_of(&tokens[1]);
    let tt = lowercase(&tokens[2]);
    let empty: [char; 0] = [];
    assert(empty@ =~= Seq::<char>::empty());
    let body = lowercase(&join_from(tokens, 2, &empty));
    let ends = word_ends_from(tokens, 2);
    proof {
        lemma_word_ends_len(all.skip(2));
    }
    let d: [char; 1] = ['d'];
    let nmos: [char; 4] = ['n', 'm', 'o', 's'];
    let pmos: [char; 4] = ['p', 'm', 'o', 's'];
    let p_is: [char; 3] = ['i', 's', '='];
    let p_n: [char; 2] = ['n', '='];
    let p_vth0: [char; 5] = ['v', 't', 'h', '0', '='];
    let p_vto: [char; 4] = ['v', 't', 'o', '='];
    let p_kp: [char; 3] = ['k', 'p', '='];
    let p_lambda: [char; 7] = ['l', 'a', 'm', 'b', 'd', 'a', '='];
    let p_gamma: [char; 6] = ['g', 'a', 'm', 'm', 'a', '='];
    let p_phi: [char; 4] = ['p', 'h', 'i', '='];
    assert(d@ =~= seq!['d']);
    assert(nmos@ =~= seq!['n', 'm', 'o', 's']);
    assert(pmos@ =~= seq!['p', 'm', 'o', 's']);
    assert(p_is@ =~= seq!['i', 's', '=']);
    assert(p_n@ =~= seq!['n', '=']);
    assert(p_vth0@ =~= seq!['v', 't', 'h', '0', '=']);
    assert(p_vto@ =~= seq!['v', 't', 'o', '=']);
    assert(p_kp@ =~= seq!['k', 'p', '=']);
    assert(p_lambda@ =~= seq!['l', 'a', 'm', 'b', 'd', 'a', '=']);
    assert(p_gamma@ =~= seq!['g', 'a', 'm', 'm', 'a', '=']);
    assert(p_phi@ =~= seq!['p', 'h', 'i', '=']);
    if has_prefix(&tt, &d) {
        let m = DiodeModel { is: param_or(&body, &ends, &p_is, "1e-14"), n: param_or(&body, &ends, &p_n, "1.0") };
        circuit.diode_models.insert(name, m);
        Ok(())
    } else if has_prefix(&tt, &nmos) || has_prefix(&tt, &pmos) {
        let kind = if has_prefix(&tt, &nmos) {
            MosfetType::Nmos
        } else {
            MosfetType::Pmos
        };
        let vth0 = match extract_model_param(&body, &ends, &p_vth0) {
            Some(v) => v,
            None => param_or(&body, &ends, &p_vto, "0.7"),
        };
        let m = MosfetModel {
            kind,
            kp: param_or(&body, &ends, &p_kp, "20e-6"),
            vth0,
            lambda: param_or(&body, &ends, &p_lambda, "0.0"),
            gamma: param_or(&body, &ends, &p_gamma, "0.0"),
            phi: param_or(&body, &ends, &p_phi, "0.6"),
        };
        circuit.mosfet_models.insert(name, m);
        Ok(())
    } else {
        Err(
            SimError::Parse(
                String::from_str("unknown .model type '").concat(string_of(&tokens[2]).as_str()).concat(
                    "' — supported: D, NMOS, PMOS",
                ),
            ),
        )
    }
}

} // verus!

verus! {

/// `.tran <tstep> <tstop> [tstart]`.
pub open spec fn tran_spec(tokens: Seq<Seq<char>>, a: AnalysisView) -> Result<
    AnalysisView,
    SimErrorView,
> {
    if tokens.len() < 3 {
        Err(parse_error(".tran requires: .tran <tstep> <tstop> [tstart]"@))
    } else {
        match value_spec(tokens[1]) {
            Err(e) => Err(e),
            Ok(step) => match value_spec(tokens[2]) {
                Err(e) => Err(e),
                Ok(stop) => {
                    let start = if tokens.len() > 3 {
                        value_spec(tokens[3])
                    } else {
                        Ok(a.tran_start)
                    };
                    match start {
                        Err(e) => Err(e),
                        Ok(start) => Ok(
                            AnalysisView {
                                tran_step: Some(step),
                                tran_stop: Some(stop),
                                tran_start: start,
                                ..a
                            },
                        ),
                    }
                },
            },
        }
    }
}

pub open spec fn word_dec() -> Seq<char> {
    seq!['d', 'e', 'c']
}

pub open spec fn word_oct() -> Seq<char> {
    seq!['o', 'c', 't']
}

pub open spec fn word_lin() -> Seq<char> {
    seq!['l', 'i', 'n']
}

/// `.ac <DEC|OCT|LIN> <points> <fstart> <fstop> [src_idx [amplitude]]`.
pub open spec fn ac_spec(tokens: Seq<Seq<char>>, a: AnalysisView) -> Result<
    AnalysisView,
    SimErrorView,
> {
    if tokens.len() < 5 {
        Err(
            parse_error(
                ".ac requires: .ac <DEC|OCT|LIN> <points> <fstart> <fstop> [src_idx [amplitude]]"@,
            ),
        )
    } else {
        let sc = lower_seq(tokens[1]);
        let scale = if sc == word_dec() {
            Some(AcScale::Dec)
        } else if sc == word_oct() {
            Some(AcScale::Oct)
        } else if sc == word_lin() {
            Some(AcScale::Lin)
        } else {
            None
        };
        match scale {
            None => Err(parse_error(".ac sweep type must be DEC, OCT, or LIN — got '"@ + sc + "'"@)),
            Some(scale) => match parse_usize(tokens[2]) {
                None => Err(parse_error("invalid .ac point count '"@ + tokens[2] + "'"@)),
                Some(points) => match value_spec(tokens[3]) {
                    Err(e) => Err(e),
                    Ok(f_start) => match value_spec(tokens[4]) {
                        Err(e) => Err(e),
                        Ok(f_stop) => {
                            let src = if tokens.len() > 5 {
                                match parse_usize(tokens[5]) {
                                    Some(k) => Ok(Some(k)),
                                    None => Err(parse_error("invalid .ac source index"@)),
                                }
                            } else {
                                Ok(None)
                            };
                            match src {
                                Err(e) => Err(e),
                                Ok(stimulus_source) => {
                                    let amp = if tokens.len() > 6 {
                                        value_spec(tokens[6])
                                    } else {
                                        Ok(plain("1.0"@))
                                    };
                                    match amp {
                                        Err(e) => Err(e),
                                        Ok(stimulus_amplitude) => Ok(
                                            AnalysisView {
                                                ac: Some(
                                                    AcCommandView {
                                                        scale,
                                                        points,
                                                        f_start,
                                                        f_stop,
                                                        stimulus_source,
                                                        stimulus_amplitude,
                                                    },
                                                ),
                                                ..a
                                            },
                                        ),
                                    }
                                },
                            }
                        },
                    },
                },
            },
        }
    }
}

pub open spec fn word_model() -> Seq<char> {
    seq!['.', 'm', 'o', 'd', 'e', 'l']
}

pub open spec fn word_op() -> Seq<char> {
    seq!['.', 'o', 'p']
}

pub open spec fn word_dot_dc() -> Seq<char> {
    seq!['.', 'd', 'c']
}

pub open spec fn word_tran() -> Seq<char> {
    seq!['.', 't', 'r', 'a', 'n']
}

pub open spec fn word_ac() -> Seq<char> {
    seq!['.', 'a', 'c']
}

/// A line that starts with a dot.
pub open spec fn dot_spec(tokens: Seq<Seq<char>>, st: ParseState) -> Result<
    ParseState,
    SimErrorView,
> {
    let cmd = lower_seq(tokens[0]);
    if cmd == word_model() {
        model_spec(tokens, st)
    } else if cmd == word_op() || cmd == word_dot_dc() {
        Ok(ParseState { analysis: AnalysisView { dc_op: true, ..st.analysis }, ..st })
    } else if cmd == word_tran() {
        match tran_spec(tokens, st.analysis) {
            Err(e) => Err(e),
            Ok(a) => Ok(ParseState { analysis: a, ..st }),
        }
    } else if cmd == word_ac() {
        match ac_spec(tokens, st.analysis) {
            Err(e) => Err(e),
            Ok(a) => Ok(ParseState { analysis: a, ..st }),
        }
    } else {
        Err(parse_error("unknown command '"@ + tokens[0] + "'"@))
    }
}

fn parse_tran(tokens: &Vec<Vec<char>>, analysis: &mut AnalysisCommands) -> (r: Result<
    (),
    SimError,
>)
    ensures
        match tran_spec(views(tokens@), old(analysis)@) {
            Ok(a) => r is Ok && final(analysis)@ == a,
            Err(e) => r matches Err(x) && x@ == e && final(analysis)@ == old(analysis)@,
        },
{
    let ghost all = views(tokens@);
    if tokens.len() < 3 {
        return Err(
            SimError::Parse(String::from_str(".tran requires: .tran <tstep> <tstop> [tstart]")),
        );
    }
    assert(all[1] == tokens@[1]@ && all[2] == tokens@[2]@);
    let step = match parse_value_token(&tokens[1]) {
        Ok(v) => v,
        Err(e) => {
            return Err(e);
        },
    };
    let stop = match parse_value_token(&tokens[2]) {
        Ok(v) => v,
        Err(e) => {
            return Err(e);
        },
    };
    if tokens.len() > 3 {
        assert(all[3] == tokens@[3]@);
        match parse_value_token(&tokens[3]) {
            Ok(v) => {
                analysis.tran_start = v;
            },
            Err(e) => {
                return Err(e);
            },
        }
    }
    analysis.tran_step = Some(step);
    analysis.tran_stop = Some(stop);
    Ok(())
}

fn parse_ac(tokens: &Vec<Vec<char>>, analysis: &mut AnalysisCommands) -> (r: Result<
    (),
    SimError,
>)
    ensures
        match ac_spec(views(tokens@), old(analysis)@) {
            Ok(a) => r is Ok && final(analysis)@ == a,
            Err(e) => r matches Err(x) && x@ == e && final(analysis)@ == old(analysis)@,
        },
{
    let ghost all = views(tokens@);
    if tokens.len() < 5 {
        return Err(
            SimError::Parse(
                String::from_str(
                    ".ac requires: .ac <DEC|OCT|LIN> <points> <fstart> <fstop> [src_idx [amplitude]]",
                ),
            ),
        );
    }
    assert(all[1] == tokens@[1]@ && all[2] == tokens@[2]@ && all[3] == tokens@[3]@ && all[4]
        == tokens@[4]@);
    let sc = lowercase(&tokens[1]);
    let w_dec: [char; 3] = ['d', 'e', 'c'];
    let w_oct: [char; 3] = ['o', 'c', 't'];
    let w_lin: [char; 3] = ['l', 'i', 'n'];
    assert(w_dec@ =~= word_dec() && w_oct@ =~= word_oct() && w_lin@ =~= word_lin());
    let scale = if chars_eq(&sc, &w_dec) {
        AcScale::Dec
    } else if chars_eq(&sc, &w_oct) {
        AcScale::Oct
    } else if chars_eq(&sc, &w_lin) {
        AcScale::Lin
    } else {
        return Err(
            SimError::Parse(
                String::from_str(".ac sweep type must be DEC, OCT, or LIN — got '").concat(
                    string_of(&sc).as_str(),
                ).concat("'"),
            ),
        );
    };
    let points = match parse_usize_chars(&tokens[2]) {
        Some(p) => p,
        None => {
            return Err(
                SimError::Parse(
                    String::from_str("invalid .ac point count '").concat(
                        string_of(&tokens[2]).as_str(),
                    ).concat("'"),
                ),
            );
        },
    };
    let f_start = match parse_value_token(&tokens[3]) {
        Ok(v) => v,
        Err(e) => {
            return Err(e);
        },
    };
    let f_stop = match parse_value_token(&tokens[4]) {
        Ok(v) => v,
        Err(e) => {
            return Err(e);
        },
    };
    let stimulus_source = if tokens.len() > 5 {
        assert(all[5] == tokens@[5]@);
        match parse_usize_chars(&tokens[5]) {
            Some(k) => Some(k),
            None => {
                return Err(SimError::Parse(String::from_str("invalid .ac source index")));
            },
        }
    } else {
        None
    };
    let stimulus_amplitude = if tokens.len() > 6 {
        assert(all[6] == tokens@[6]@);
        match parse_value_token(&tokens[6]) {
            Ok(v) => v,
            Err(e) => {
                return Err(e);
            },
        }
    } else {
        Value::plain("1.0")
    };
    analysis.ac = Some(
        AcCommand { scale, points, f_start, f_stop, stimulus_source, stimulus_amplitude },
    );
    Ok(())
}

fn parse_dot_command(
    line: &[char],
    analysis: &mut AnalysisCommands,
    circuit: &mut Circuit,
) -> (r: Result<(), SimError>)
    requires
        split_ws(line@).len() > 0,
    ensures
        match dot_spec(
            split_ws(line@),
            ParseState { circuit: old(circuit)@, analysis: old(analysis)@ },
        ) {
            Ok(st) => r is Ok && final(circuit)@ == st.circuit && final(analysis)@ == st.analysis,
            Err(e) => r matches Err(x) && x@ == e && final(circuit)@ == old(circuit)@
                && final(analysis)@ == old(analysis)@,
        },
{
    let tokens = split_whitespace(line);
    let ghost all = views(tokens@);
    assert(all[0] == tokens@[0]@);
    let cmd = lowercase(&tokens[0]);
    let w_model: [char; 6] = ['.', 'm', 'o', 'd', 'e', 'l'];
    let w_op: [char; 3] = ['.', 'o', 'p'];
    let w_dc: [char; 3] = ['.', 'd', 'c'];
    let w_tran: [char; 5] = ['.', 't', 'r', 'a', 'n'];
    let w_ac: [char; 3] = ['.', 'a', 'c'];
    assert(w_model@ =~= word_model() && w_op@ =~= word_op() && w_dc@ =~= word_dot_dc());
    assert(w_tran@ =~= word_tran() && w_ac@ =~= word_ac());
    if chars_eq(&cmd, &w_model) {
        parse_model(
            &tokens,
            circuit,
            Ghost(ParseState { circuit: circuit@, analysis: analysis@ }),
        )
    } else if chars_eq(&cmd, &w_op) || chars_eq(&cmd, &w_dc) {
        analysis.dc_op = true;
        Ok(())
    } else if chars_eq(&cmd, &w_tran) {
        parse_tran(&tokens, analysis)
    } else if chars_eq(&cmd, &w_ac) {
        parse_ac(&tokens, analysis)
    } else {
        Err(
            SimError::Parse(
                String::from_str("unknown command '").concat(string_of(&tokens[0]).as_str()).concat(
                    "'",
                ),
            ),
        )
    }
}

} // verus!

verus! {

// ─── Lines and the whole netlist ─────────────────────────────────────────────

/// What one line does to the reader's state.
pub enum LineOutcome {
    Next(ParseState),
    Stop,
    Fail(SimErrorView),
}

pub open spec fn word_end() -> Seq<char> {
    seq!['.', 'e', 'n', 'd']
}

pub open spec fn element_spec(tokens: Seq<Seq<char>>, n: nat, st: ParseState) -> Result<
    CircuitView,
    SimErrorView,
> {
    let kind = tokens[0][0];
    let k = upper(kind);
    if k == 'R' {
        two_terminal_spec(tokens, st.circuit, TwoTerminalKind::Resistor)
    } else if k == 'C' {
        two_terminal_spec(tokens, st.circuit, TwoTerminalKind::Capacitor)
    } else if k == 'L' {
        two_terminal_spec(tokens, st.circuit, TwoTerminalKind::Inductor)
    } else if k == 'D' {
        diode_spec(tokens, st.circuit)
    } else if k == 'V' {
        source_spec(tokens, st.circuit)
    } else if k == 'M' {
        mosfet_spec(tokens, st.circuit)
    } else {
        Err(parse_error("line "@ + dec(n) + ": unsupported element '"@ + seq![kind] + "'"@))
    }
}

/// Line `n` (counted from 1): blank after its comment, `.end`, a dot command
/// or an element.
#[verifier::opaque]
pub open spec fn line_spec(raw: Seq<char>, n: nat, st: ParseState) -> LineOutcome {
    let t = trim(strip_comment_spec(raw, false));
    if t.len() == 0 {
        LineOutcome::Next(st)
    } else if lower_seq(t) == word_end() {
        LineOutcome::Stop
    } else if t[0] == '.' {
        match dot_spec(split_ws(t), st) {
            Ok(s2) => LineOutcome::Next(s2),
            Err(e) => LineOutcome::Fail(e),
        }
    } else {
        let tokens = split_ws(t);
        if tokens.len() < 4 {
            LineOutcome::Fail(parse_error("line "@ + dec(n) + ": expected at least 4 fields"@))
        } else {
            match element_spec(tokens, n, st) {
                Ok(c) => LineOutcome::Next(ParseState { circuit: c, ..st }),
                Err(e) => LineOutcome::Fail(e),
            }
        }
    }
}

/// The lines from the `k`-th on.
pub open spec fn lines_spec(ls: Seq<Seq<char>>, k: int, st: ParseState) -> Result<
    ParseState,
    SimErrorView,
>
    decreases ls.len() - k,
{
    if k < 0 || k >= ls.len() {
        Ok(st)
    } else {
        match line_spec(ls[k], (k + 1) as nat, st) {
            LineOutcome::Stop => Ok(st),
            LineOutcome::Fail(e) => Err(e),
            LineOutcome::Next(s2) => lines_spec(ls, k + 1, s2),
        }
    }
}

pub struct Netlist {
    pub circuit: Circuit,
    pub analysis: AnalysisCommands,
}

pub struct NetlistView {
    pub circuit: CircuitView,
    pub analysis: AnalysisView,
}

impl View for Netlist {
    type V = NetlistView;

    open spec fn view(&self) -> NetlistView {
        NetlistView { circuit: self.circuit@, analysis: self.analysis@ }
    }
}

pub open spec fn initial_state() -> ParseState {
    ParseState {
        circuit: crate::circuit::empty_circuit("untitled"@),
        analysis: crate::analysis::default_analysis(),
    }
}

/// What `parse` makes of a netlist text: every line up to `.end` read in
/// turn, then the circuit validated.
pub open spec fn parse_spec(source: Seq<char>) -> Result<NetlistView, SimErrorView> {
    match lines_spec(lines(source), 0, initial_state()) {
        Err(e) => Err(e),
        Ok(st) => match validate_spec(st.circuit) {
            Err(e) => Err(e),
            Ok(()) => Ok(NetlistView { circuit: st.circuit, analysis: st.analysis }),
        },
    }
}

fn line_message(n: usize, text: &str) -> (s: String)
    ensures
        s@ == "line "@ + dec(n as nat) + text@,
{
    let mut digits: Vec<char> = Vec::new();
    push_decimal(&mut digits, n);
    assert(digits@ =~= dec(n as nat));
    String::from_str("line ").concat(string_of(&digits).as_str()).concat(text)
}

/// Reads one line; `Ok(true)` when it is `.end`.
#[verifier::rlimit(40)]
fn parse_line(
    raw: &[char],
    line_no: usize,
    circuit: &mut Circuit,
    analysis: &mut AnalysisCommands,
) -> (r: Result<bool, SimError>)
    ensures
        match line_spec(raw@, line_no as nat, ParseState { circuit: old(circuit)@, analysis: old(analysis)@ }) {
            LineOutcome::Next(st) => r == Ok::<bool, SimError>(false) && final(circuit)@ == st.circuit
                && final(analysis)@ == st.analysis,
            LineOutcome::Stop => r == Ok::<bool, SimError>(true) && final(circuit)@ == old(circuit)@
                && final(analysis)@ == old(analysis)@,
            LineOutcome::Fail(e) => r matches Err(x) && x@ == e,
        },
{
    reveal(line_spec);
    let stripped = strip_comment(raw);
    let line = trim_chars(&stripped);
    if line.len() == 0 {
        return Ok(false);
    }
    proof {
        crate::text::lemma_trim_first(stripped@);
        crate::text::lemma_split_ws_first(line@);
    }
    let lower = lowercase(&line);
    let w_end: [char; 4] = ['.', 'e', 'n', 'd'];
    assert(w_end@ =~= word_end());
    if chars_eq(&lower, &w_end) {
        return Ok(true);
    }
    if line[0] == '.' {
        return match parse_dot_command(&line, analysis, circuit) {
            Ok(()) => Ok(false),
            Err(e) => Err(e),
        };
    }
    let tokens = split_whitespace(&line);
    if tokens.len() < 4 {
        return Err(SimError::Parse(line_message(line_no, ": expected at least 4 fields")));
    }
    let ghost all = views(tokens@);
    assert(all[0] == tokens@[0]@);
    let kind = tokens[0][0];
    let k = to_upper(kind);
    let res = if k == 'R' {
        parse_two_terminal(&tokens, circuit, TwoTerminalKind::Resistor)
    } else if k == 'C' {
        parse_two_terminal(&tokens, circuit, TwoTerminalKind::Capacitor)
    } else if k == 'L' {
        parse_two_terminal(&tokens, circuit, TwoTerminalKind::Inductor)
    } else if k == 'D' {
        parse_diode(&tokens, circuit)
    } else if k == 'V' {
        parse_voltage_source(&tokens, circuit)
    } else if k == 'M' {
        parse_mosfet(&tokens, circuit)
    } else {
        let mut tail = String::from_str(": unsupported element '");
        tail.push(kind);
        tail.append("'");
        let m = line_message(line_no, tail.as_str());
        assert(m@ =~= "line "@ + dec(line_no as nat) + ": unsupported element '"@ + seq![kind]
            + "'"@);
        return Err(SimError::Parse(m));
    };
    match res {
        Ok(()) => Ok(false),
        Err(e) => Err(e),
    }
}

/// Parses a SPICE netlist: elements, `.model` cards and analysis commands,
/// up to `.end`; then validates the circuit.
pub fn parse(source: &str) -> (r: Result<Netlist, SimError>)
    ensures
        match parse_spec(source@) {
            Ok(n) => r matches Ok(x) && x@ == n,
            Err(e) => r matches Err(x) && x@ == e,
        },
{
    let src = chars_of(source);
    let ls = split_lines(&src);
    let ghost all = views(ls@);
    let mut circuit = Circuit::new("untitled");
    let mut analysis = AnalysisCommands::default();
    let mut k: usize = 0;
    loop
        invariant_except_break
            k <= ls.len(),
            ls.len() <= src.len(),
            all == views(ls@),
            all == lines(source@),
            lines_spec(all, 0, initial_state()) == lines_spec(
                all,
                k as int,
                ParseState { circuit: circuit@, analysis: analysis@ },
            ),
        ensures
            all == views(ls@),
            all == lines(source@),
            lines_spec(all, 0, initial_state()) == Ok::<ParseState, SimErrorView>(
                ParseState { circuit: circuit@, analysis: analysis@ },
            ),
        decreases ls.len() - k,
    {
        if k >= ls.len() {
            break;
        }
        assert(all[k as int] == ls@[k as int]@);
        let line_no = k + 1;
        match parse_line(&ls[k], line_no, &mut circuit, &mut analysis) {
            Ok(true) => {
                break;
            },
            Ok(false) => {},
            Err(e) => {
                return Err(e);
            },
        }
        k += 1;
    }
    match circuit.validate() {
        Ok(()) => Ok(Netlist { circuit, analysis }),
        Err(e) => Err(e),
    }
}

} // verus!
