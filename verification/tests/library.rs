use circuitsim::analysis::{
    ac_stimulus, analysis_plan, check_time_step, check_transient_window, AnalysisPlan,
};
use circuitsim::circuit::{Circuit, NodeId};
use circuitsim::error::SimError;
use circuitsim::editor::{source_fields, source_kind_of, source_value, template_of, SourceKind};
use circuitsim::layout::{generate_schematic_from_netlist, layout_components, read_components};
use circuitsim::mna::node_index_pub;
use circuitsim::netlist::{parse, strip_comment, Netlist};
use circuitsim::schematic::{
    generate_netlist_from_schematic, node_labels, plot_selection, AnalysisType, CompKind,
    Component, Direction, Dsu, Example, GridPt, Schematic, Tool, Wire,
};
use circuitsim::units::{parse_value, suffix_multiplier, Value};

fn as_f64(v: &Value) -> f64 {
    v.literal.parse::<f64>().unwrap() * 10f64.powi(v.scale)
}

fn parsed(text: &str) -> Netlist {
    match parse(text) {
        Ok(n) => n,
        Err(e) => panic!("{}", e.message()),
    }
}

fn parse_error(text: &str) -> String {
    match parse(text) {
        Ok(_) => panic!("expected an error"),
        Err(e) => e.message(),
    }
}

fn chars(s: &str) -> Vec<char> {
    s.chars().collect()
}

fn component(kind: CompKind, p1: (i32, i32), p2: (i32, i32), val: &str) -> Component {
    Component { kind, p1: GridPt(p1.0, p1.1), p2: GridPt(p2.0, p2.1), val: val.to_string() }
}

fn wire(p1: (i32, i32), p2: (i32, i32)) -> Wire {
    Wire { p1: GridPt(p1.0, p1.1), p2: GridPt(p2.0, p2.1) }
}

#[test]
fn parses_suffixes() {
    assert!((as_f64(&parse_value("1k").unwrap()) - 1000.0).abs() < 1e-9);
    assert!((as_f64(&parse_value("1u").unwrap()) - 1e-6).abs() < 1e-15);
    assert!((as_f64(&parse_value("4.7").unwrap()) - 4.7).abs() < 1e-9);
}

#[test]
fn value_keeps_literal_and_power() {
    let v = parse_value(" 2.2K ").unwrap();
    assert_eq!(v.literal, "2.2");
    assert_eq!(v.scale, 3);
    let v = parse_value("10").unwrap();
    assert_eq!(v.literal, "10");
    assert_eq!(v.scale, 0);
    let v = parse_value("100n").unwrap();
    assert_eq!(v.scale, -9);
}

#[test]
fn value_errors() {
    assert_eq!(parse_value("").unwrap_err(), "empty value");
    assert_eq!(parse_value("1x").unwrap_err(), "unknown suffix 'x'");
    assert_eq!(parse_value("1.2.3").unwrap_err(), "invalid number '1.2.3'");
    assert_eq!(parse_value("abck").unwrap_err(), "invalid number 'abck'");
}

#[test]
fn suffix_powers() {
    assert_eq!(suffix_multiplier('f').unwrap(), -15);
    assert_eq!(suffix_multiplier('P').unwrap(), -12);
    assert_eq!(suffix_multiplier('n').unwrap(), -9);
    assert_eq!(suffix_multiplier('u').unwrap(), -6);
    assert_eq!(suffix_multiplier('m').unwrap(), -3);
    assert_eq!(suffix_multiplier('k').unwrap(), 3);
    assert_eq!(suffix_multiplier('G').unwrap(), 9);
    assert_eq!(suffix_multiplier('t').unwrap(), 12);
    assert_eq!(suffix_multiplier('q').unwrap_err(), "unknown suffix 'q'");
}

#[test]
fn reads_voltage_divider() {
    let n = parsed("\n* Voltage divider\nV1 1 0 DC 10\nR1 1 2 1k\nR2 2 0 1k\n.op\n.end\n");
    let c = &n.circuit;
    assert_eq!(c.nodes, 3);
    assert_eq!(c.resistors.len(), 2);
    assert_eq!(c.resistors[0].name, "R1");
    assert_eq!(c.resistors[0].n1.0, 1);
    assert_eq!(c.resistors[0].n2.0, 2);
    assert!((as_f64(&c.resistors[1].resistance) - 1000.0).abs() < 1e-9);
    assert_eq!(c.voltage_sources.len(), 1);
    assert!((as_f64(&c.voltage_sources[0].voltage) - 10.0).abs() < 1e-12);
    assert!(n.analysis.dc_op);
    assert!(n.analysis.tran_step.is_none());
    let plan = analysis_plan(&n.analysis).ok().unwrap();
    assert_eq!(plan, AnalysisPlan { dc: true, tran: false, ac: false });
}

#[test]
fn reads_rc_transient() {
    let n = parsed("\nV1 1 0 DC 5\nR1 1 2 1k\nC1 2 0 1u\n.tran 10u 5m\n.end\n");
    assert_eq!(n.circuit.capacitors.len(), 1);
    let step = n.analysis.tran_step.as_ref().unwrap();
    let stop = n.analysis.tran_stop.as_ref().unwrap();
    assert!((as_f64(step) - 10e-6).abs() < 1e-18);
    assert!((as_f64(stop) - 5e-3).abs() < 1e-15);
    assert!(!n.analysis.dc_op);
    let plan = analysis_plan(&n.analysis).ok().unwrap();
    assert_eq!(plan, AnalysisPlan { dc: false, tran: true, ac: false });
    assert!(check_transient_window(&n.analysis.tran_start, stop).is_ok());
}

#[test]
fn reads_rl_circuit() {
    let n = parsed("\nV1 1 0 DC 12\nR1 1 2 100\nL1 2 0 1m\n.op\n.end\n");
    assert_eq!(n.circuit.inductors.len(), 1);
    assert_eq!(n.circuit.inductors[0].n1.0, 2);
    assert_eq!(n.circuit.dc_matrix_size(), 3);
    assert_eq!(n.circuit.tran_matrix_size(), 4);
    assert_eq!(n.circuit.voltage_source_branch(0), 2);
    assert_eq!(n.circuit.inductor_branch(0), 3);
}

#[test]
fn examples_all_read() {
    for ex in [Example::RcCharge, Example::VoltageDivider, Example::RlCircuit, Example::RcLowPass] {
        let n = parsed(ex.netlist());
        assert!(analysis_plan(&n.analysis).is_ok());
    }
    assert_eq!(Example::RcLowPass.label(), "RC low-pass (.ac)");
    assert_eq!(Example::RcCharge.label(), "RC charge");
    let ac = parsed(Example::RcLowPass.netlist()).analysis.ac.unwrap();
    assert_eq!(ac.points, 200);
}

#[test]
fn reading_stops_at_end() {
    let n = parsed("V1 1 0 DC 5\nR1 1 0 1k\n.END\nthis line is not read\n");
    assert_eq!(n.circuit.resistors.len(), 1);
}

#[test]
fn comments_are_dropped() {
    assert_eq!(strip_comment(&chars("R1 1 2 1k ; load")), chars("R1 1 2 1k "));
    assert_eq!(strip_comment(&chars("* title")), chars(""));
    // Quotes are dropped; a comment mark between them is kept.
    assert_eq!(strip_comment(&chars("V1 1 0 \"a;b\" x")), chars("V1 1 0 a;b x"));
    let n = parsed("R1 1 0 1k ; a comment\n.op\n");
    assert_eq!(n.circuit.resistors.len(), 1);
}

#[test]
fn parse_errors() {
    assert_eq!(parse_error("R1 1 2\n"), "netlist parse error: line 1: expected at least 4 fields");
    assert_eq!(parse_error("X1 1 2 3\n"), "netlist parse error: line 1: unsupported element 'X'");
    assert_eq!(parse_error("R1 a 2 1k\n"), "netlist parse error: invalid node 'a'");
    assert_eq!(parse_error(".foo\n"), "netlist parse error: unknown command '.foo'");
    assert_eq!(
        parse_error(".tran 1u\n"),
        "netlist parse error: .tran requires: .tran <tstep> <tstop> [tstart]"
    );
    assert_eq!(parse_error("R1 1 0 1q\n"), "netlist parse error: unknown suffix 'q'");
}

#[test]
fn circuit_errors() {
    assert_eq!(parse_error("R1 1 0 0\n.op\n"), "circuit error: resistor R1 must have R > 0");
    assert_eq!(parse_error("C1 1 0 -1u\n.op\n"), "circuit error: capacitor C1 must have C > 0");
    match parse("R1 1 0 0\n") {
        Err(SimError::Circuit(m)) => assert_eq!(m, "resistor R1 must have R > 0"),
        _ => panic!("expected a circuit error"),
    }
}

#[test]
fn analysis_errors() {
    let n = parsed(".tran 1m 1u 2m\nR1 1 0 1k\n");
    let stop = n.analysis.tran_stop.as_ref().unwrap();
    match check_transient_window(&n.analysis.tran_start, stop) {
        Err(SimError::Analysis(m)) => assert_eq!(m, "tstop must be >= tstart"),
        _ => panic!("expected an analysis error"),
    }
    let n = parsed("R1 1 0 1k\n.ac dec 10 1 1k\n");
    let ac = n.analysis.ac.as_ref().unwrap();
    match ac_stimulus(&n.circuit, ac) {
        Err(e) => assert_eq!(
            e.message(),
            "analysis error: AC analysis requires at least one voltage source as a stimulus"
        ),
        Ok(_) => panic!("expected an analysis error"),
    }
    let n = parsed("V1 3 0 DC 0\nR1 3 0 1k\n.ac dec 10 1 1k\n");
    let s = ac_stimulus(&n.circuit, n.analysis.ac.as_ref().unwrap()).ok().unwrap();
    assert_eq!(s.source, 0);
    assert_eq!(s.node, 3);
}

#[test]
fn models_are_stored() {
    let n = parsed(".model D1N D is=2e-14\nD1 1 0 D1N\nR1 1 0 1k\n.op\n");
    let m = n.circuit.diode_models.get("D1N").unwrap();
    assert!((as_f64(&m.is) - 2e-14).abs() < 1e-26);
    assert!((as_f64(&m.n) - 1.0).abs() < 1e-12);
    assert!(n.circuit.diode_models.get("other").is_none());
}

#[test]
fn node_rows() {
    assert_eq!(node_index_pub(NodeId(0)), None);
    assert_eq!(node_index_pub(NodeId(1)), Some(0));
    assert_eq!(node_index_pub(NodeId(7)), Some(6));
}

#[test]
fn circuit_nodes_grow() {
    let mut c = Circuit::new("t");
    assert_eq!(c.nodes, 1);
    c.ensure_node(4);
    assert_eq!(c.nodes, 5);
    c.ensure_node(2);
    assert_eq!(c.nodes, 5);
    assert_eq!(c.dc_matrix_size(), 4);
}

#[test]
fn directions_turn() {
    let d = Direction::Right;
    assert_eq!(d.next(), Direction::Down);
    assert_eq!(d.next().next().next().next(), Direction::Right);
    assert_eq!(Direction::Right.offset(3), (3, 0));
    assert_eq!(Direction::Down.offset(3), (0, 3));
    assert_eq!(Direction::Left.offset(3), (-3, 0));
    assert_eq!(Direction::Up.offset(3), (0, -3));
}

#[test]
fn disjoint_sets() {
    let mut d = Dsu::new(5);
    assert_eq!(d.size(), 5);
    d.union(0, 1);
    d.union(3, 4);
    assert_eq!(d.find(0), d.find(1));
    assert_eq!(d.find(2), 2);
    assert_ne!(d.find(0), d.find(3));
    d.union(1, 4);
    assert_eq!(d.find(0), d.find(3));
    assert_ne!(d.find(2), d.find(4));
}

fn divider_schematic() -> Schematic {
    let mut s = Schematic::default();
    s.components.push(component(CompKind::Voltage, (0, 0), (0, 4), "DC 5"));
    s.components.push(component(CompKind::Resistor, (2, 0), (6, 0), "1k"));
    s.components.push(component(CompKind::Ground, (0, 4), (0, 4), ""));
    s.components.push(component(CompKind::Capacitor, (8, 0), (8, 4), "1u"));
    s.wires.push(wire((0, 0), (2, 0)));
    s.wires.push(wire((6, 0), (8, 0)));
    s.wires.push(wire((0, 4), (8, 4)));
    s
}

#[test]
fn schematic_to_netlist() {
    let s = divider_schematic();
    assert_eq!(
        generate_netlist_from_schematic(&s),
        "* Auto-generated from Schematic\nV1 1 0 DC 5\nR1 1 2 1k\nC1 2 0 1u\n.op\n.tran 1u 5m\n.end\n"
    );
    let n = parsed(&generate_netlist_from_schematic(&s));
    assert_eq!(n.circuit.nodes, 3);
}

#[test]
fn schematic_ac_card_and_numbering() {
    let mut s = divider_schematic();
    s.analysis_type = AnalysisType::Ac;
    // Without its ground symbol the bottom net gets a number of its own.
    s.components.remove(2);
    s.components.push(component(CompKind::Resistor, (10, 0), (10, 4), "2k"));
    assert_eq!(
        generate_netlist_from_schematic(&s),
        "* Auto-generated from Schematic\nV1 1 2 DC 5\nR1 1 3 1k\nC1 3 2 1u\nR2 4 5 2k\n.op\n.ac dec 20 1 10k\n.end\n"
    );
}

#[test]
fn netlist_to_schematic() {
    let mut s = Schematic::default();
    let n = generate_schematic_from_netlist(
        &mut s,
        "* RC\nV1 1 0 DC 5\nR1 1 2 1k\nC1 2 0 1u\n.tran 10u 5m\n.end\n",
    );
    assert_eq!(n, Some(3));
    let got: Vec<(CompKind, GridPt, GridPt, String)> =
        s.components.iter().map(|c| (c.kind, c.p1, c.p2, c.val.clone())).collect();
    assert_eq!(
        got,
        vec![
            (CompKind::Voltage, GridPt(6, 3), GridPt(6, 7), "DC 5".to_string()),
            (CompKind::Ground, GridPt(6, 7), GridPt(6, 7), "".to_string()),
            (CompKind::Resistor, GridPt(6, 13), GridPt(6, 17), "1k".to_string()),
            (CompKind::Capacitor, GridPt(12, 3), GridPt(12, 7), "1u".to_string()),
            (CompKind::Ground, GridPt(12, 7), GridPt(12, 7), "".to_string()),
        ]
    );
    assert_eq!(
        s.wires,
        vec![
            wire((6, 3), (3, 3)),
            wire((6, 13), (3, 13)),
            wire((6, 17), (9, 17)),
            wire((12, 3), (9, 3)),
            wire((3, 3), (3, 13)),
            wire((9, 3), (9, 17)),
        ]
    );
    assert_eq!(s.analysis_type, AnalysisType::Tran);
    assert_eq!(s.tran_step, "10u");
    assert_eq!(s.tran_stop, "5m");
}

#[test]
fn spine_joins_every_pin_of_a_node() {
    let mut s = Schematic::default();
    let n = generate_schematic_from_netlist(&mut s, "V1 1 0 DC 5\nR1 1 0 1k\nR2 1 0 1k\n");
    assert_eq!(n, Some(3));
    let tops: Vec<GridPt> = s
        .components
        .iter()
        .filter(|c| c.kind != CompKind::Ground)
        .map(|c| c.p1)
        .collect();
    assert_eq!(tops, vec![GridPt(6, 3), GridPt(6, 13), GridPt(6, 23)]);
    assert_eq!(
        s.wires,
        vec![
            wire((6, 3), (3, 3)),
            wire((6, 13), (3, 13)),
            wire((6, 23), (3, 23)),
            wire((3, 3), (3, 13)),
            wire((3, 13), (3, 23)),
        ]
    );
    let text = generate_netlist_from_schematic(&s);
    let lines: Vec<&str> = text.lines().collect();
    assert_eq!(&lines[1..4], &["V1 1 0 DC 5", "R1 1 0 1k", "R2 1 0 1k"]);
}

#[test]
fn netlist_to_schematic_reads_ac_card() {
    let mut s = Schematic::default();
    let n = generate_schematic_from_netlist(&mut s, "V1 1 0 AC 1\nR1 1 0 1K\n.AC OCT 7 10 1MEG\n");
    assert_eq!(n, Some(2));
    assert_eq!(s.analysis_type, AnalysisType::Ac);
    assert_eq!(s.ac_variation, "oct");
    assert_eq!(s.ac_points, "7");
    assert_eq!(s.ac_fstart, "10");
    assert_eq!(s.ac_fstop, "1meg");
    // Both elements hang from node 1: the second goes in the next row.
    assert_eq!(s.components[2].p1, GridPt(6, 13));
}

#[test]
fn netlist_without_elements_changes_nothing() {
    let mut s = divider_schematic();
    assert_eq!(generate_schematic_from_netlist(&mut s, "* nothing\n.op\n.end\n"), None);
    assert_eq!(s.components.len(), 4);
    assert_eq!(s.wires.len(), 3);
    assert_eq!(s.tran_step, "1u");
}

#[test]
fn element_lines_for_import() {
    let cs = read_components("r5 3 0 10 k\nD1 1 0 dmod\nV2 +4 2 SIN(0 1 1k)\nC3 x 0 1u\n");
    assert_eq!(cs.len(), 2);
    assert_eq!(cs[0].kind, CompKind::Resistor);
    assert_eq!(cs[0].node_a, 3);
    assert_eq!(cs[0].val, "10 k");
    assert_eq!(cs[1].kind, CompKind::Voltage);
    assert_eq!(cs[1].node_a, 4);
    assert_eq!(cs[1].val, "SIN(0 1 1k)");
    let (comps, wires) = layout_components(&cs);
    // Nodes 2, 3 and 4 get columns 0, 1 and 2.
    assert_eq!(comps[0].p1, GridPt(12, 3));
    assert_eq!(wires[0], wire((12, 3), (9, 3)));
}

fn strings(v: &[&str]) -> Vec<String> {
    v.iter().map(|x| x.to_string()).collect()
}

#[test]
fn wire_tool_draws_wires() {
    let mut s = Schematic::default();
    s.tool = Tool::Wire;
    s.click(GridPt(1, 1), None, None);
    assert_eq!(s.active_wire_start, Some(GridPt(1, 1)));
    s.click(GridPt(1, 1), None, None);
    assert_eq!(s.active_wire_start, None);
    assert!(s.wires.is_empty());
    s.click(GridPt(1, 1), None, None);
    s.click(GridPt(4, 1), None, None);
    assert_eq!(s.wires, vec![wire((1, 1), (4, 1))]);
    assert_eq!(s.active_wire_start, None);
}

#[test]
fn placing_tools_put_down_elements() {
    let mut s = Schematic::default();
    s.selected_component = Some(0);
    s.tool = Tool::R;
    s.click(GridPt(2, 2), None, None);
    assert_eq!(s.components.len(), 1);
    assert_eq!(s.components[0].kind, CompKind::Resistor);
    assert_eq!(s.components[0].p2, GridPt(2, 5));
    assert_eq!(s.components[0].val, "1k");
    assert_eq!(s.selected_component, None);
    s.current_dir = Direction::Right;
    s.tool = Tool::V;
    s.click(GridPt(0, 0), None, None);
    assert_eq!(s.components[1].p2, GridPt(3, 0));
    assert_eq!(s.components[1].val, "DC 5");
    s.tool = Tool::Gnd;
    s.click(GridPt(7, 7), None, None);
    assert_eq!(s.components[2].kind, CompKind::Ground);
    assert_eq!(s.components[2].p2, GridPt(7, 7));
    assert_eq!(s.components[2].val, "");
}

#[test]
fn select_tool_prefers_components() {
    let mut s = divider_schematic();
    s.click(GridPt(0, 0), Some(1), Some(0));
    assert_eq!(s.selected_component, Some(1));
    assert_eq!(s.selected_wire, None);
    s.click(GridPt(0, 0), None, Some(2));
    assert_eq!(s.selected_component, None);
    assert_eq!(s.selected_wire, Some(2));
    s.cancel();
    assert_eq!(s.selected_wire, None);
}

#[test]
fn rotate_turns_selection_or_direction() {
    let mut s = Schematic::default();
    s.rotate();
    assert_eq!(s.current_dir, Direction::Left);
    s.components.push(component(CompKind::Resistor, (2, 2), (2, 5), "1k"));
    s.wires.push(wire((2, 5), (8, 5)));
    s.selected_component = Some(0);
    s.rotate();
    assert_eq!(s.components[0].p1, GridPt(2, 2));
    assert_eq!(s.components[0].p2, GridPt(-1, 2));
    assert_eq!(s.wires, vec![wire((-1, 2), (8, 5))]);
    assert_eq!(s.current_dir, Direction::Left);
}

#[test]
fn dragging_moves_component_and_wire_ends() {
    let mut s = divider_schematic();
    s.drag_start(Some(1), GridPt(4, 0));
    assert_eq!(s.selected_component, Some(1));
    assert_eq!(s.drag_last_grid, Some(GridPt(4, 0)));
    s.drag_to(GridPt(6, 1));
    assert_eq!(s.components[1].p1, GridPt(4, 1));
    assert_eq!(s.components[1].p2, GridPt(8, 1));
    assert_eq!(s.wires[0], wire((0, 0), (4, 1)));
    assert_eq!(s.wires[1], wire((8, 1), (8, 0)));
    assert_eq!(s.drag_last_grid, Some(GridPt(6, 1)));
    s.drag_start(None, GridPt(0, 0));
    assert_eq!(s.drag_last_grid, None);
}

#[test]
fn delete_key_removes_selection() {
    let mut s = divider_schematic();
    s.selected_component = Some(0);
    s.selected_wire = Some(1);
    s.delete_selected();
    assert_eq!(s.wires.len(), 2);
    assert_eq!(s.selected_wire, None);
    assert_eq!(s.components.len(), 4);
    s.delete_selected();
    assert_eq!(s.components.len(), 3);
    assert_eq!(s.components[0].kind, CompKind::Resistor);
    assert_eq!(s.selected_component, None);
    s.delete_wire(0);
    assert_eq!(s.wires, vec![wire((0, 4), (8, 4))]);
    s.delete_component(2);
    assert_eq!(s.components.len(), 2);
}

#[test]
fn source_forms() {
    assert_eq!(source_kind_of("SIN(0 5 1k 0 0)"), SourceKind::Sin);
    assert_eq!(source_kind_of("PULSE(0 5 1m 1u 1u 5m 10m)"), SourceKind::Pulse);
    assert_eq!(source_kind_of("AC 1 0"), SourceKind::Ac);
    assert_eq!(source_kind_of("DC 5"), SourceKind::Dc);
    assert_eq!(source_kind_of("5"), SourceKind::Dc);
    assert_eq!(template_of(SourceKind::Ac), "AC 1 0");
    assert_eq!(source_fields("SIN(0 5 1k)", SourceKind::Sin), strings(&["0", "5", "1k", "", ""]));
    assert_eq!(source_fields("DC 5", SourceKind::Dc), strings(&["5"]));
    assert_eq!(source_fields(" 7 8", SourceKind::Dc), strings(&["7"]));
    assert_eq!(source_fields("AC 2", SourceKind::Ac), strings(&["2", ""]));
    assert_eq!(source_fields("PULSE 0 1", SourceKind::Pulse), strings(&["", "", "", "", "", "", ""]));
    assert_eq!(source_value(SourceKind::Dc, &strings(&[""])), "DC 0");
    assert_eq!(source_value(SourceKind::Ac, &strings(&["1", "45"])), "AC 1 45");
    assert_eq!(source_value(SourceKind::Sin, &strings(&["0", "5", "1k", "0", "0"])), "SIN(0 5 1k 0 0)");
}

#[test]
fn changing_source_form_sets_template() {
    let mut s = divider_schematic();
    s.change_source_kind(0, SourceKind::Sin);
    assert_eq!(s.components[0].val, "SIN(0 5 1k 0 0)");
    s.change_source_kind(0, SourceKind::Sin);
    assert_eq!(s.components[0].val, "SIN(0 5 1k 0 0)");
    s.components[0].val = "SIN(1 2 3 4 5)".to_string();
    s.change_source_kind(0, SourceKind::Sin);
    assert_eq!(s.components[0].val, "SIN(1 2 3 4 5)");
}

#[test]
fn node_labels_at_first_points() {
    let s = divider_schematic();
    assert_eq!(node_labels(&s), vec![(1, GridPt(0, 0)), (0, GridPt(0, 4)), (2, GridPt(6, 0))]);
}

#[test]
fn circuit_summary_line() {
    let n = parsed(Example::VoltageDivider.netlist());
    assert_eq!(n.circuit.summary(), "3 nodes · 2 R · 0 C · 0 L · 1 V");
}

#[test]
fn example_file_names() {
    assert_eq!(Example::RcLowPass.file_name(), "rc_low-pass_(.ac).cir");
    assert_eq!(Example::VoltageDivider.file_name(), "voltage_divider.cir");
}

#[test]
fn plot_selection_after_run() {
    assert_eq!(plot_selection(&vec![true; 16], 5), vec![true, true, true, true, false]);
    assert_eq!(plot_selection(&vec![], 2), vec![false, true]);
}

#[test]
fn mosfet_size_defaults_to_one_micron() {
    let n = parsed(".model NM NMOS kp=5e-5\nM1 2 1 0 0 NM\nM2 2 1 0 0 NM W=2u\nV1 1 0 DC 1\nR1 2 0 1k\n.op\n");
    let m = &n.circuit.mosfets[0];
    assert!((as_f64(&m.w) - 1e-6).abs() < 1e-18);
    assert!((as_f64(&m.l) - 1e-6).abs() < 1e-18);
    assert!((as_f64(&n.circuit.mosfets[1].w) - 2e-6).abs() < 1e-18);
    let model = n.circuit.mosfet_models.get("NM").unwrap();
    assert!((as_f64(&model.kp) - 5e-5).abs() < 1e-18);
    assert!((as_f64(&model.vth0) - 0.7).abs() < 1e-12);
}

#[test]
fn ac_stimulus_defaults_to_one_volt() {
    let n = parsed("V1 1 0 DC 0\nR1 1 0 1k\n.ac lin 5 1 1k\n");
    let ac = n.analysis.ac.as_ref().unwrap();
    assert!((as_f64(&ac.stimulus_amplitude) - 1.0).abs() < 1e-12);
    assert_eq!(ac.stimulus_source, None);
    assert_eq!(ac.points, 5);
}

#[test]
fn model_numbers_take_si_suffixes() {
    let n = parsed(".model NM NMOS(KP=20u VTO=0.5)\nM1 2 1 0 0 NM\nR1 2 0 1k\n.op\n");
    let model = n.circuit.mosfet_models.get("NM").unwrap();
    assert!((as_f64(&model.kp) - 20e-6).abs() < 1e-18);
    assert!((as_f64(&model.vth0) - 0.5).abs() < 1e-12);
    assert!((as_f64(&model.phi) - 0.6).abs() < 1e-12);
    let n = parsed(".model D1N D(IS=1f, N=1.5)\nD1 1 0 D1N\nR1 1 0 1k\n.op\n");
    let m = n.circuit.diode_models.get("D1N").unwrap();
    assert!((as_f64(&m.is) - 1e-15).abs() < 1e-27);
    assert!((as_f64(&m.n) - 1.5).abs() < 1e-12);
}

#[test]
fn model_cards_allow_blanks_around_equals() {
    let n = parsed(".model D1 D IS= 1e-14\nD1 1 0 D1\nR1 1 0 1k\n.op\n");
    let m = n.circuit.diode_models.get("D1").unwrap();
    assert!((as_f64(&m.is) - 1e-14).abs() < 1e-26);
    let n = parsed(".model NM NMOS KP = 50u\nM1 2 1 0 0 NM\nR1 2 0 1k\n.op\n");
    let model = n.circuit.mosfet_models.get("NM").unwrap();
    assert!((as_f64(&model.kp) - 50e-6).abs() < 1e-18);
}

#[test]
fn model_number_stops_before_next_parameter() {
    // The letter after the number starts the next parameter's name, so it
    // is no suffix.
    let n = parsed(".model D1N D(IS=1e-14 N=1.0)\nD1 1 0 D1N\nR1 1 0 1k\n.op\n");
    let m = n.circuit.diode_models.get("D1N").unwrap();
    assert!((as_f64(&m.is) - 1e-14).abs() < 1e-26);
    assert!((as_f64(&m.n) - 1.0).abs() < 1e-12);
}

#[test]
fn unreadable_model_numbers_count_as_zero() {
    let n = parsed(".model D1N D is=abc n=2\nD1 1 0 D1N\nR1 1 0 1k\n.op\n");
    let m = n.circuit.diode_models.get("D1N").unwrap();
    assert_eq!(as_f64(&m.is), 0.0);
    assert!((as_f64(&m.n) - 2.0).abs() < 1e-12);
}

#[test]
fn exported_netlist_reads_back() {
    let s = divider_schematic();
    let text = generate_netlist_from_schematic(&s);
    let got: Vec<(CompKind, usize, usize, String)> = read_components(&text)
        .iter()
        .map(|c| (c.kind, c.node_a, c.node_b, c.val.clone()))
        .collect();
    assert_eq!(
        got,
        vec![
            (CompKind::Voltage, 1, 0, "DC 5".to_string()),
            (CompKind::Resistor, 1, 2, "1k".to_string()),
            (CompKind::Capacitor, 2, 0, "1u".to_string()),
        ]
    );
}

#[test]
fn time_step_must_be_positive() {
    let zero = parse_value("0").unwrap();
    let neg = parse_value("-1u").unwrap();
    let ok = parse_value("1u").unwrap();
    match check_time_step(&zero) {
        Err(SimError::Analysis(m)) => assert_eq!(m, "time step must be positive"),
        _ => panic!("expected an analysis error"),
    }
    assert!(check_time_step(&neg).is_err());
    assert!(check_time_step(&ok).is_ok());
}

#[test]
fn reexport_keeps_the_node_partition() {
    let text = "V1 1 0 DC 5\nR1 1 2 1k\nR2 2 3 1k\nC1 3 0 1u\nR3 2 0 2k\nL1 3 2 1m\n";
    let mut s = Schematic::default();
    assert_eq!(generate_schematic_from_netlist(&mut s, text), Some(6));
    let out = generate_netlist_from_schematic(&s);
    let before: Vec<(String, usize, usize)> = text
        .lines()
        .map(|l| {
            let f: Vec<&str> = l.split_whitespace().collect();
            (f[0].to_string(), f[1].parse().unwrap(), f[2].parse().unwrap())
        })
        .collect();
    let after: Vec<(String, usize, usize)> = out
        .lines()
        .filter(|l| !l.starts_with('*') && !l.starts_with('.'))
        .map(|l| {
            let f: Vec<&str> = l.split_whitespace().collect();
            (f[0].to_string(), f[1].parse().unwrap(), f[2].parse().unwrap())
        })
        .collect();
    assert_eq!(after.len(), before.len());
    let old_nodes: Vec<usize> = before.iter().flat_map(|e| vec![e.1, e.2]).collect();
    let new_nodes: Vec<usize> = after.iter().flat_map(|e| vec![e.1, e.2]).collect();
    for i in 0..old_nodes.len() {
        assert_eq!(new_nodes[i] == 0, old_nodes[i] == 0);
        for j in 0..old_nodes.len() {
            assert_eq!(new_nodes[i] == new_nodes[j], old_nodes[i] == old_nodes[j]);
        }
    }
}

#[test]
fn text_after_end_line_is_ignored() {
    let head = "* divider\nV1 1 0 DC 5\nR1 1 2 1k\nR2 2 0 1k\n.op\n";
    let with_tail = format!("{}.End\r\nR9 x y z\n.bogus\n", head);
    let a = parsed(head);
    let b = parsed(&with_tail);
    assert_eq!(a.circuit.nodes, b.circuit.nodes);
    assert_eq!(a.circuit.resistors.len(), b.circuit.resistors.len());
    assert_eq!(a.circuit.voltage_sources.len(), b.circuit.voltage_sources.len());
    assert_eq!(a.analysis.dc_op, b.analysis.dc_op);
}

#[test]
fn end_card_after_any_text() {
    let head = "V1 1 0 DC 5\nR1 1 0 1k\n.op";
    let a = parsed(head);
    let b = parsed(&format!("{}\n.END\ngarbage", head));
    let c = parsed(&format!("{}\n", head));
    for n in [&b, &c] {
        assert_eq!(a.circuit.nodes, n.circuit.nodes);
        assert_eq!(a.circuit.resistors.len(), n.circuit.resistors.len());
        assert_eq!(a.analysis.dc_op, n.analysis.dc_op);
    }
}
