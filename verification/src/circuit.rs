//! Circuit elements and the circuit that holds them.
use vstd::prelude::*;
use vstd::string::StringExecFns;

use crate::error::{SimError, SimErrorView};
use crate::units::{
    ext_add, ext_le_zero, ext_lt_zero, ext_gt_zero, ext_lt, period_too_short, value_ext, Value,
    ValueView,
};

verus! {

// ─── Model tables ────────────────────────────────────────────────────────────

/// Named device models; a name stands for one model, and storing under a name
/// that is already taken replaces its model. The entries are kept in a vector:
/// with text names as keys, what std's hash map returns on a lookup could not
/// be proved.
pub struct ModelTable<M> {
    entries: Vec<(String, M)>,
}

/// The names and models held, the first entry of a name counting.
pub open spec fn table_map<M: View>(s: Seq<(String, M)>) -> Map<Seq<char>, M::V>
    decreases s.len(),
{
    if s.len() == 0 {
        Map::empty()
    } else {
        table_map(s.drop_first()).insert(s[0].0@, s[0].1@)
    }
}

proof fn lemma_table_map_push<M: View>(s: Seq<(String, M)>, e: (String, M))
    requires
        !table_map(s).contains_key(e.0@),
    ensures
        table_map(s.push(e)) == table_map(s).insert(e.0@, e.1@),
    decreases s.len(),
{
    if s.len() == 0 {
        assert(s.push(e).drop_first() =~= Seq::<(String, M)>::empty());
        assert(s.push(e)[0] == e);
        assert(table_map(Seq::<(String, M)>::empty()) == Map::<Seq<char>, M::V>::empty());
        assert(table_map(s) == Map::<Seq<char>, M::V>::empty());
        assert(table_map(s.push(e)) =~= table_map(s).insert(e.0@, e.1@));
    } else {
        assert(s.push(e).drop_first() =~= s.drop_first().push(e));
        assert(s.push(e)[0] == s[0]);
        assert(table_map(s).contains_key(s[0].0@));
        assert(s[0].0@ != e.0@);
        lemma_table_map_push(s.drop_first(), e);
        assert(table_map(s.push(e)) =~= table_map(s).insert(e.0@, e.1@));
    }
}

/// Replacing the first entry of a name.
proof fn lemma_table_map_update<M: View>(s: Seq<(String, M)>, i: int, e: (String, M))
    requires
        0 <= i < s.len(),
        s[i].0@ == e.0@,
        forall|j: int| 0 <= j < i ==> s[j].0@ != e.0@,
    ensures
        table_map(s.update(i, e)) == table_map(s).insert(e.0@, e.1@),
    decreases s.len(),
{
    if i == 0 {
        assert(s.update(i, e).drop_first() =~= s.drop_first());
        assert(table_map(s.update(i, e)) =~= table_map(s).insert(e.0@, e.1@));
    } else {
        assert(s.update(i, e).drop_first() =~= s.drop_first().update(i - 1, e));
        lemma_table_map_update(s.drop_first(), i - 1, e);
        assert(table_map(s.update(i, e)) =~= table_map(s).insert(e.0@, e.1@));
    }
}

/// Where the first entry of `key` stands.
pub open spec fn first_index<M>(s: Seq<(String, M)>, key: Seq<char>) -> Option<int> {
    if exists|i: int| 0 <= i < s.len() && s[i].0@ == key {
        let i = choose|i: int|
            0 <= i < s.len() && s[i].0@ == key && forall|j: int| 0 <= j < i ==> s[j].0@ != key;
        Some(i)
    } else {
        None
    }
}

proof fn lemma_table_map_lookup<M: View>(s: Seq<(String, M)>, key: Seq<char>, k: int)
    requires
        0 <= k <= s.len(),
        forall|j: int| 0 <= j < k ==> s[j].0@ != key,
    ensures
        k < s.len() && s[k].0@ == key ==> table_map(s).contains_key(key) && table_map(s)[key]
            == s[k].1@,
        k == s.len() ==> !table_map(s).contains_key(key),
        k < s.len() ==> (table_map(s).contains_key(key) <==> table_map(s.skip(k)).contains_key(
            key,
        )),
        k < s.len() && table_map(s).contains_key(key) ==> table_map(s)[key] == table_map(
            s.skip(k),
        )[key],
    decreases k,
{
    if k > 0 {
        lemma_table_map_lookup(s.drop_first(), key, k - 1);
        if k < s.len() {
            assert(s.drop_first().skip(k - 1) =~= s.skip(k));
        }
    } else {
        assert(s.skip(0) =~= s);
        if s.len() == 0 {
            assert(table_map(s) =~= Map::empty());
        }
    }
}

impl<M: View> View for ModelTable<M> {
    type V = Map<Seq<char>, M::V>;

    closed spec fn view(&self) -> Map<Seq<char>, M::V> {
        table_map(self.entries@)
    }
}

impl<M: View> ModelTable<M> {
    pub fn new() -> (t: Self)
        ensures
            t@ == Map::<Seq<char>, M::V>::empty(),
    {
        let t = ModelTable { entries: Vec::new() };
        assert(t@ =~= Map::<Seq<char>, M::V>::empty());
        t
    }

    /// Index of the first entry named `key`, if any.
    fn position(&self, key: &str) -> (r: Option<usize>)
        ensures
            match r {
                Some(i) => i < self.entries.len() && self.entries@[i as int].0@ == key@
                    && table_map(self.entries@).contains_key(key@) && table_map(
                    self.entries@,
                )[key@] == self.entries@[i as int].1@ && forall|j: int|
                    0 <= j < i ==> self.entries@[j].0@ != key@,
                None => !table_map(self.entries@).contains_key(key@),
            },
    {
        let mut i: usize = 0;
        while i < self.entries.len()
            invariant
                i <= self.entries.len(),
                forall|j: int| 0 <= j < i ==> self.entries@[j].0@ != key@,
            decreases self.entries.len() - i,
        {
            let name: &str = self.entries[i].0.as_str();
            if crate::text::chars_eq(&crate::text::chars_of(name), &crate::text::chars_of(key)) {
                proof {
                    lemma_table_map_lookup(self.entries@, key@, i as int);
                }
                return Some(i);
            }
            i += 1;
        }
        proof {
            lemma_table_map_lookup(self.entries@, key@, i as int);
        }
        None
    }

    /// Stores `model` under `name`, replacing what was stored there.
    pub fn insert(&mut self, name: String, model: M)
        ensures
            final(self)@ == old(self)@.insert(name@, model@),
    {
        match self.position(name.as_str()) {
            Some(i) => {
                proof {
                    lemma_table_map_update(self.entries@, i as int, (name, model));
                }
                self.entries.set(i, (name, model));
            },
            None => {
                proof {
                    lemma_table_map_push(self.entries@, (name, model));
                }
                self.entries.push((name, model));
            },
        }
    }

    pub fn contains_key(&self, name: &str) -> (r: bool)
        ensures
            r == self@.contains_key(name@),
    {
        self.position(name).is_some()
    }

    pub fn get(&self, name: &str) -> (r: Option<&M>)
        ensures
            match r {
                Some(m) => self@.contains_key(name@) && self@[name@] == m@,
                None => !self@.contains_key(name@),
            },
    {
        match self.position(name) {
            Some(i) => Some(&self.entries[i].1),
            None => None,
        }
    }
}

} // verus!

verus! {

// ─── Elements ────────────────────────────────────────────────────────────────

/// A circuit node. Ground is always node 0 and is not an unknown of the
/// nodal equations.
#[derive(Clone, Copy, PartialEq, Eq, Structural, Debug, Hash)]
pub struct NodeId(pub usize);

#[derive(Clone, Copy, PartialEq, Eq, Structural, Debug)]
pub enum MosfetType {
    Nmos,
    Pmos,
}

pub struct DiodeModel {
    pub is: Value,
    pub n: Value,
}

pub struct DiodeModelView {
    pub is: ValueView,
    pub n: ValueView,
}

impl View for DiodeModel {
    type V = DiodeModelView;

    open spec fn view(&self) -> DiodeModelView {
        DiodeModelView { is: self.is@, n: self.n@ }
    }
}

/// Level-1 (Shichman-Hodges) MOSFET model parameters, as on a SPICE
/// `.MODEL NMOS/PMOS` card.
pub struct MosfetModel {
    pub kind: MosfetType,
    /// Transconductance parameter KP = µ·Cox (A/V²).
    pub kp: Value,
    /// Zero-bias threshold voltage (V).
    pub vth0: Value,
    /// Channel-length modulation (1/V).
    pub lambda: Value,
    /// Bulk threshold parameter (V^0.5).
    pub gamma: Value,
    /// Surface potential 2·φF (V).
    pub phi: Value,
}

pub struct MosfetModelView {
    pub kind: MosfetType,
    pub kp: ValueView,
    pub vth0: ValueView,
    pub lambda: ValueView,
    pub gamma: ValueView,
    pub phi: ValueView,
}

impl View for MosfetModel {
    type V = MosfetModelView;

    open spec fn view(&self) -> MosfetModelView {
        MosfetModelView {
            kind: self.kind,
            kp: self.kp@,
            vth0: self.vth0@,
            lambda: self.lambda@,
            gamma: self.gamma@,
            phi: self.phi@,
        }
    }
}

impl Default for MosfetModel {
    /// Level-1 NMOS defaults.
    fn default() -> (m: Self)
        ensures
            m@ == (MosfetModelView {
                kind: MosfetType::Nmos,
                kp: ValueView { literal: "20e-6"@, scale: 0 },
                vth0: ValueView { literal: "0.7"@, scale: 0 },
                lambda: ValueView { literal: "0.0"@, scale: 0 },
                gamma: ValueView { literal: "0.0"@, scale: 0 },
                phi: ValueView { literal: "0.6"@, scale: 0 },
            }),
    {
        MosfetModel {
            kind: MosfetType::Nmos,
            kp: Value::plain("20e-6"),
            vth0: Value::plain("0.7"),
            lambda: Value::plain("0.0"),
            gamma: Value::plain("0.0"),
            phi: Value::plain("0.6"),
        }
    }
}

pub struct Mosfet {
    pub name: String,
    /// Drain.
    pub nd: NodeId,
    /// Gate.
    pub ng: NodeId,
    /// Source.
    pub ns: NodeId,
    /// Bulk.
    pub nb: NodeId,
    /// Name of the `.MODEL` card it uses.
    pub model: String,
    /// Channel width (m).
    pub w: Value,
    /// Channel length (m).
    pub l: Value,
}

pub struct MosfetView {
    pub name: Seq<char>,
    pub nd: usize,
    pub ng: usize,
    pub ns: usize,
    pub nb: usize,
    pub model: Seq<char>,
    pub w: ValueView,
    pub l: ValueView,
}

impl View for Mosfet {
    type V = MosfetView;

    open spec fn view(&self) -> MosfetView {
        MosfetView {
            name: self.name@,
            nd: self.nd.0,
            ng: self.ng.0,
            ns: self.ns.0,
            nb: self.nb.0,
            model: self.model@,
            w: self.w@,
            l: self.l@,
        }
    }
}

/// A two-terminal element: its name, its nodes and its value.
pub struct TwoTerminalView {
    pub name: Seq<char>,
    pub n1: usize,
    pub n2: usize,
    pub value: ValueView,
}

pub struct Resistor {
    pub name: String,
    pub n1: NodeId,
    pub n2: NodeId,
    pub resistance: Value,
}

impl View for Resistor {
    type V = TwoTerminalView;

    open spec fn view(&self) -> TwoTerminalView {
        TwoTerminalView { name: self.name@, n1: self.n1.0, n2: self.n2.0, value: self.resistance@ }
    }
}

pub struct Capacitor {
    pub name: String,
    pub n1: NodeId,
    pub n2: NodeId,
    pub capacitance: Value,
}

impl View for Capacitor {
    type V = TwoTerminalView;

    open spec fn view(&self) -> TwoTerminalView {
        TwoTerminalView { name: self.name@, n1: self.n1.0, n2: self.n2.0, value: self.capacitance@ }
    }
}

pub struct Inductor {
    pub name: String,
    pub n1: NodeId,
    pub n2: NodeId,
    pub inductance: Value,
}

impl View for Inductor {
    type V = TwoTerminalView;

    open spec fn view(&self) -> TwoTerminalView {
        TwoTerminalView { name: self.name@, n1: self.n1.0, n2: self.n2.0, value: self.inductance@ }
    }
}

pub struct Diode {
    pub name: String,
    pub anode: NodeId,
    pub cathode: NodeId,
    pub model: String,
}

pub struct DiodeView {
    pub name: Seq<char>,
    pub anode: usize,
    pub cathode: usize,
    pub model: Seq<char>,
}

impl View for Diode {
    type V = DiodeView;

    open spec fn view(&self) -> DiodeView {
        DiodeView {
            name: self.name@,
            anode: self.anode.0,
            cathode: self.cathode.0,
            model: self.model@,
        }
    }
}

/// `PULSE(V1 V2 TD TR TF PW PER)`.
pub struct Pulse {
    pub v1: Value,
    pub v2: Value,
    pub td: Value,
    pub tr: Value,
    pub tf: Value,
    pub pw: Value,
    pub per: Value,
}

pub struct PulseView {
    pub v1: ValueView,
    pub v2: ValueView,
    pub td: ValueView,
    pub tr: ValueView,
    pub tf: ValueView,
    pub pw: ValueView,
    pub per: ValueView,
}

impl View for Pulse {
    type V = PulseView;

    open spec fn view(&self) -> PulseView {
        PulseView {
            v1: self.v1@,
            v2: self.v2@,
            td: self.td@,
            tr: self.tr@,
            tf: self.tf@,
            pw: self.pw@,
            per: self.per@,
        }
    }
}

/// `SIN(VO VA FREQ [TD [THETA]])`.
pub struct Sine {
    pub vo: Value,
    pub va: Value,
    pub freq: Value,
    pub td: Value,
    pub theta: Value,
}

pub struct SineView {
    pub vo: ValueView,
    pub va: ValueView,
    pub freq: ValueView,
    pub td: ValueView,
    pub theta: ValueView,
}

impl View for Sine {
    type V = SineView;

    open spec fn view(&self) -> SineView {
        SineView {
            vo: self.vo@,
            va: self.va@,
            freq: self.freq@,
            td: self.td@,
            theta: self.theta@,
        }
    }
}

pub struct VoltageSource {
    pub name: String,
    pub n1: NodeId,
    pub n2: NodeId,
    /// The DC value.
    pub voltage: Value,
    pub pulse: Option<Pulse>,
    pub sine: Option<Sine>,
}

pub struct VoltageSourceView {
    pub name: Seq<char>,
    pub n1: usize,
    pub n2: usize,
    pub voltage: ValueView,
    pub pulse: Option<PulseView>,
    pub sine: Option<SineView>,
}

impl View for VoltageSource {
    type V = VoltageSourceView;

    open spec fn view(&self) -> VoltageSourceView {
        VoltageSourceView {
            name: self.name@,
            n1: self.n1.0,
            n2: self.n2.0,
            voltage: self.voltage@,
            pulse: match &self.pulse {
                Some(p) => Some(p@),
                None => None,
            },
            sine: match &self.sine {
                Some(s) => Some(s@),
                None => None,
            },
        }
    }
}

// ─── The circuit ─────────────────────────────────────────────────────────────

pub struct Circuit {
    pub name: String,
    /// One more than the highest node number seen (ground counts).
    pub nodes: usize,
    pub resistors: Vec<Resistor>,
    pub capacitors: Vec<Capacitor>,
    pub inductors: Vec<Inductor>,
    pub voltage_sources: Vec<VoltageSource>,
    pub diode_models: ModelTable<DiodeModel>,
    pub diodes: Vec<Diode>,
    pub mosfet_models: ModelTable<MosfetModel>,
    pub mosfets: Vec<Mosfet>,
}

pub struct CircuitView {
    pub name: Seq<char>,
    pub nodes: usize,
    pub resistors: Seq<TwoTerminalView>,
    pub capacitors: Seq<TwoTerminalView>,
    pub inductors: Seq<TwoTerminalView>,
    pub voltage_sources: Seq<VoltageSourceView>,
    pub diode_models: Map<Seq<char>, DiodeModelView>,
    pub diodes: Seq<DiodeView>,
    pub mosfet_models: Map<Seq<char>, MosfetModelView>,
    pub mosfets: Seq<MosfetView>,
}

impl View for Circuit {
    type V = CircuitView;

    open spec fn view(&self) -> CircuitView {
        CircuitView {
            name: self.name@,
            nodes: self.nodes,
            resistors: self.resistors@.map_values(|r: Resistor| r@),
            capacitors: self.capacitors@.map_values(|c: Capacitor| c@),
            inductors: self.inductors@.map_values(|l: Inductor| l@),
            voltage_sources: self.voltage_sources@.map_values(|v: VoltageSource| v@),
            diode_models: self.diode_models@,
            diodes: self.diodes@.map_values(|d: Diode| d@),
            mosfet_models: self.mosfet_models@,
            mosfets: self.mosfets@.map_values(|m: Mosfet| m@),
        }
    }
}

/// A circuit with nothing in it but ground.
pub open spec fn empty_circuit(name: Seq<char>) -> CircuitView {
    CircuitView {
        name,
        nodes: 1,
        resistors: Seq::empty(),
        capacitors: Seq::empty(),
        inductors: Seq::empty(),
        voltage_sources: Seq::empty(),
        diode_models: Map::empty(),
        diodes: Seq::empty(),
        mosfet_models: Map::empty(),
        mosfets: Seq::empty(),
    }
}

/// `nodes - 1`, or 0: how many node voltages are unknowns.
pub open spec fn node_unknowns(c: CircuitView) -> nat {
    if c.nodes >= 1 {
        (c.nodes - 1) as nat
    } else {
        0
    }
}

impl Circuit {
    pub fn new(name: &str) -> (c: Circuit)
        ensures
            c@ == empty_circuit(name@),
    {
        let c = Circuit {
            name: String::from_str(name),
            nodes: 1,
            resistors: Vec::new(),
            capacitors: Vec::new(),
            inductors: Vec::new(),
            voltage_sources: Vec::new(),
            diode_models: ModelTable::new(),
            diodes: Vec::new(),
            mosfet_models: ModelTable::new(),
            mosfets: Vec::new(),
        };
        assert(c@.resistors =~= Seq::<TwoTerminalView>::empty());
        assert(c@.capacitors =~= Seq::<TwoTerminalView>::empty());
        assert(c@.inductors =~= Seq::<TwoTerminalView>::empty());
        assert(c@.voltage_sources =~= Seq::<VoltageSourceView>::empty());
        assert(c@.diodes =~= Seq::<DiodeView>::empty());
        assert(c@.mosfets =~= Seq::<MosfetView>::empty());
        c
    }

    /// Makes room for node `id`.
    pub fn ensure_node(&mut self, id: usize)
        requires
            id < usize::MAX,
        ensures
            final(self)@ == (CircuitView {
                nodes: if id >= old(self).nodes {
                    (id + 1) as usize
                } else {
                    old(self).nodes
                },
                ..old(self)@
            }),
    {
        if id >= self.nodes {
            self.nodes = id + 1;
        }
    }

    /// Unknowns of the DC system: node voltages and source currents.
    pub fn dc_matrix_size(&self) -> (n: usize)
        requires
            node_unknowns(self@) + self.voltage_sources.len() <= usize::MAX,
        ensures
            n == node_unknowns(self@) + self.voltage_sources.len(),
    {
        let n = self.nodes.saturating_sub(1);
        n + self.voltage_sources.len()
    }

    /// Unknowns of the transient system: node voltages, source currents and
    /// inductor currents.
    pub fn tran_matrix_size(&self) -> (n: usize)
        requires
            node_unknowns(self@) + self.voltage_sources.len() + self.inductors.len() <= usize::MAX,
        ensures
            n == node_unknowns(self@) + self.voltage_sources.len() + self.inductors.len(),
    {
        let n = self.nodes.saturating_sub(1);
        n + self.voltage_sources.len() + self.inductors.len()
    }

    /// Row of the current through voltage source `i`.
    pub fn voltage_source_branch(&self, i: usize) -> (b: usize)
        requires
            i < self.voltage_sources.len(),
            node_unknowns(self@) + self.voltage_sources.len() <= usize::MAX,
        ensures
            b == node_unknowns(self@) + i,
    {
        self.nodes.saturating_sub(1) + i
    }

    /// Row of the current through inductor `i`.
    pub fn inductor_branch(&self, i: usize) -> (b: usize)
        requires
            i < self.inductors.len(),
            node_unknowns(self@) + self.voltage_sources.len() + self.inductors.len() <= usize::MAX,
        ensures
            b == node_unknowns(self@) + self.voltage_sources.len() + i,
    {
        self.nodes.saturating_sub(1) + self.voltage_sources.len() + i
    }
}

} // verus!

verus! {

// ─── Validation ──────────────────────────────────────────────────────────────

/// The first two-terminal element whose value is not above zero, as a message.
pub open spec fn nonpositive_error(
    xs: Seq<TwoTerminalView>,
    kind: Seq<char>,
    rule: Seq<char>,
) -> Option<Seq<char>>
    decreases xs.len(),
{
    if xs.len() == 0 {
        None
    } else if ext_le_zero(value_ext(xs[0].value)) {
        Some(kind + xs[0].name + rule)
    } else {
        nonpositive_error(xs.drop_first(), kind, rule)
    }
}

/// The first MOSFET with a bad size or an unknown model, as a message.
pub open spec fn mosfet_error(
    ms: Seq<MosfetView>,
    models: Map<Seq<char>, MosfetModelView>,
) -> Option<Seq<char>>
    decreases ms.len(),
{
    if ms.len() == 0 {
        None
    } else {
        let m = ms[0];
        if ext_le_zero(value_ext(m.w)) {
            Some("MOSFET "@ + m.name + " must have W > 0"@)
        } else if ext_le_zero(value_ext(m.l)) {
            Some("MOSFET "@ + m.name + " must have L > 0"@)
        } else if !models.contains_key(m.model) {
            Some("MOSFET "@ + m.name + " references unknown model '"@ + m.model + "'"@)
        } else {
            mosfet_error(ms.drop_first(), models)
        }
    }
}

pub open spec fn pulse_negative(p: PulseView) -> bool {
    ext_lt_zero(value_ext(p.td)) || ext_lt_zero(value_ext(p.tr)) || ext_lt_zero(value_ext(p.tf))
        || ext_lt_zero(value_ext(p.pw)) || ext_lt_zero(value_ext(p.per))
}

pub open spec fn pulse_period_short(p: PulseView) -> bool {
    ext_gt_zero(value_ext(p.per)) && ext_lt(
        value_ext(p.per),
        ext_add(ext_add(value_ext(p.tr), value_ext(p.pw)), value_ext(p.tf)),
    )
}

pub open spec fn sine_negative(s: SineView) -> bool {
    ext_lt_zero(value_ext(s.freq)) || ext_lt_zero(value_ext(s.td))
}

/// What is wrong with one voltage source's waveform, if anything.
pub open spec fn source_fault(v: VoltageSourceView) -> Option<Seq<char>> {
    let pulse_fault = match v.pulse {
        Some(p) => if pulse_negative(p) {
            Some("voltage source "@ + v.name + " pulse timings cannot be negative"@)
        } else if pulse_period_short(p) {
            Some(
                "voltage source "@ + v.name
                    + " pulse period must be greater than active duration (tr + pw + tf)"@,
            )
        } else {
            None
        },
        None => None,
    };
    if pulse_fault is Some {
        pulse_fault
    } else {
        match v.sine {
            Some(s) => if sine_negative(s) {
                Some("voltage source "@ + v.name + " sine frequency and delay cannot be negative"@)
            } else {
                None
            },
            None => None,
        }
    }
}

pub open spec fn source_error(vs: Seq<VoltageSourceView>) -> Option<Seq<char>>
    decreases vs.len(),
{
    if vs.len() == 0 {
        None
    } else if source_fault(vs[0]) is Some {
        source_fault(vs[0])
    } else {
        source_error(vs.drop_first())
    }
}

/// Two voltage sources alike but for their DC values and the levels V1, V2
/// of their pulses.
pub open spec fn alike_but_levels(a: VoltageSourceView, b: VoltageSourceView) -> bool {
    &&& a.name == b.name
    &&& a.n1 == b.n1
    &&& a.n2 == b.n2
    &&& a.sine == b.sine
    &&& match (a.pulse, b.pulse) {
        (None, None) => true,
        (Some(p), Some(q)) => p.td == q.td && p.tr == q.tr && p.tf == q.tf && p.pw == q.pw && p.per
            == q.per,
        _ => false,
    }
}

proof fn lemma_source_error_levels(xs: Seq<VoltageSourceView>, ys: Seq<VoltageSourceView>)
    requires
        xs.len() == ys.len(),
        forall|i: int| 0 <= i < xs.len() ==> alike_but_levels(#[trigger] xs[i], ys[i]),
    ensures
        source_error(xs) == source_error(ys),
    decreases xs.len(),
{
    if xs.len() > 0 {
        assert(alike_but_levels(xs[0], ys[0]));
        assert(source_fault(xs[0]) == source_fault(ys[0]));
        assert forall|i: int| 0 <= i < xs.drop_first().len() implies alike_but_levels(
            #[trigger] xs.drop_first()[i],
            ys.drop_first()[i],
        ) by {
            assert(alike_but_levels(xs[i + 1], ys[i + 1]));
        }
        lemma_source_error_levels(xs.drop_first(), ys.drop_first());
    }
}

/// Validation reads a pulse only through its timings: circuits that differ
/// only in their sources' DC values and pulse levels V1, V2 (negative ones
/// included) validate alike.
pub proof fn law_pulse_levels_never_fault(c: CircuitView, d: CircuitView)
    requires
        d == (CircuitView { voltage_sources: d.voltage_sources, ..c }),
        d.voltage_sources.len() == c.voltage_sources.len(),
        forall|i: int|
            0 <= i < c.voltage_sources.len() ==> alike_but_levels(
                #[trigger] c.voltage_sources[i],
                d.voltage_sources[i],
            ),
    ensures
        validate_spec(c) == validate_spec(d),
{
    lemma_source_error_levels(c.voltage_sources, d.voltage_sources);
}

/// What `Circuit::validate` reports: the first fault, in the order nodes,
/// resistors, capacitors, inductors, MOSFETs, voltage sources.
pub open spec fn validate_spec(c: CircuitView) -> Result<(), SimErrorView> {
    if c.nodes < 1 {
        Err(SimErrorView::Circuit("circuit has no nodes"@))
    } else if nonpositive_error(c.resistors, "resistor "@, " must have R > 0"@) is Some {
        Err(
            SimErrorView::Circuit(
                nonpositive_error(c.resistors, "resistor "@, " must have R > 0"@).unwrap(),
            ),
        )
    } else if nonpositive_error(c.capacitors, "capacitor "@, " must have C > 0"@) is Some {
        Err(
            SimErrorView::Circuit(
                nonpositive_error(c.capacitors, "capacitor "@, " must have C > 0"@).unwrap(),
            ),
        )
    } else if nonpositive_error(c.inductors, "inductor "@, " must have L > 0"@) is Some {
        Err(
            SimErrorView::Circuit(
                nonpositive_error(c.inductors, "inductor "@, " must have L > 0"@).unwrap(),
            ),
        )
    } else if mosfet_error(c.mosfets, c.mosfet_models) is Some {
        Err(SimErrorView::Circuit(mosfet_error(c.mosfets, c.mosfet_models).unwrap()))
    } else if source_error(c.voltage_sources) is Some {
        Err(SimErrorView::Circuit(source_error(c.voltage_sources).unwrap()))
    } else {
        Ok(())
    }
}

/// The name and the value of a two-terminal element.
pub trait TwoTerminal: View<V = TwoTerminalView> {
    fn name_of(&self) -> (s: &String)
        ensures
            s@ == self@.name,
    ;

    fn value_of(&self) -> (v: &Value)
        ensures
            v@ == self@.value,
    ;
}

impl TwoTerminal for Resistor {
    fn name_of(&self) -> (s: &String) {
        &self.name
    }

    fn value_of(&self) -> (v: &Value) {
        &self.resistance
    }
}

impl TwoTerminal for Capacitor {
    fn name_of(&self) -> (s: &String) {
        &self.name
    }

    fn value_of(&self) -> (v: &Value) {
        &self.capacitance
    }
}

impl TwoTerminal for Inductor {
    fn name_of(&self) -> (s: &String) {
        &self.name
    }

    fn value_of(&self) -> (v: &Value) {
        &self.inductance
    }
}

fn first_nonpositive<T: TwoTerminal>(xs: &Vec<T>, kind: &str, rule: &str) -> (r: Option<String>)
    ensures
        match nonpositive_error(xs@.map_values(|x: T| x@), kind@, rule@) {
            Some(m) => r matches Some(s) && s@ == m,
            None => r is None,
        },
{
    let ghost all = xs@.map_values(|x: T| x@);
    let mut i: usize = 0;
    assert(all.skip(0) =~= all);
    while i < xs.len()
        invariant
            i <= xs.len(),
            all == xs@.map_values(|x: T| x@),
            nonpositive_error(all, kind@, rule@) == nonpositive_error(all.skip(i as int), kind@, rule@),
        decreases xs.len() - i,
    {
        let x = &xs[i];
        assert(all.skip(i as int)[0] == x@);
        if x.value_of().number().le_zero() {
            return Some(String::from_str(kind).concat(x.name_of().as_str()).concat(rule));
        }
        assert(all.skip(i as int).drop_first() =~= all.skip(i + 1));
        i += 1;
    }
    assert(all.skip(i as int) =~= Seq::<TwoTerminalView>::empty());
    None
}

fn first_bad_mosfet(ms: &Vec<Mosfet>, models: &ModelTable<MosfetModel>) -> (r: Option<String>)
    ensures
        match mosfet_error(ms@.map_values(|m: Mosfet| m@), models@) {
            Some(e) => r matches Some(s) && s@ == e,
            None => r is None,
        },
{
    let ghost all = ms@.map_values(|m: Mosfet| m@);
    let mut i: usize = 0;
    assert(all.skip(0) =~= all);
    while i < ms.len()
        invariant
            i <= ms.len(),
            all == ms@.map_values(|m: Mosfet| m@),
            mosfet_error(all, models@) == mosfet_error(all.skip(i as int), models@),
        decreases ms.len() - i,
    {
        let m = &ms[i];
        assert(all.skip(i as int)[0] == m@);
        if m.w.number().le_zero() {
            return Some(
                String::from_str("MOSFET ").concat(m.name.as_str()).concat(" must have W > 0"),
            );
        }
        if m.l.number().le_zero() {
            return Some(
                String::from_str("MOSFET ").concat(m.name.as_str()).concat(" must have L > 0"),
            );
        }
        if !models.contains_key(m.model.as_str()) {
            return Some(
                String::from_str("MOSFET ").concat(m.name.as_str()).concat(
                    " references unknown model '",
                ).concat(m.model.as_str()).concat("'"),
            );
        }
        assert(all.skip(i as int).drop_first() =~= all.skip(i + 1));
        i += 1;
    }
    assert(all.skip(i as int) =~= Seq::<MosfetView>::empty());
    None
}

fn fault_of(v: &VoltageSource) -> (r: Option<String>)
    ensures
        match source_fault(v@) {
            Some(e) => r matches Some(s) && s@ == e,
            None => r is None,
        },
{
    if let Some(p) = &v.pulse {
        let td = p.td.number();
        let tr = p.tr.number();
        let tf = p.tf.number();
        let pw = p.pw.number();
        let per = p.per.number();
        if td.lt_zero() || tr.lt_zero() || tf.lt_zero() || pw.lt_zero() || per.lt_zero() {
            return Some(
                String::from_str("voltage source ").concat(v.name.as_str()).concat(
                    " pulse timings cannot be negative",
                ),
            );
        }
        if period_too_short(&per, &tr, &pw, &tf) {
            return Some(
                String::from_str("voltage source ").concat(v.name.as_str()).concat(
                    " pulse period must be greater than active duration (tr + pw + tf)",
                ),
            );
        }
    }
    if let Some(s) = &v.sine {
        if s.freq.number().lt_zero() || s.td.number().lt_zero() {
            return Some(
                String::from_str("voltage source ").concat(v.name.as_str()).concat(
                    " sine frequency and delay cannot be negative",
                ),
            );
        }
    }
    None
}

fn first_bad_source(vs: &Vec<VoltageSource>) -> (r: Option<String>)
    ensures
        match source_error(vs@.map_values(|v: VoltageSource| v@)) {
            Some(e) => r matches Some(s) && s@ == e,
            None => r is None,
        },
{
    let ghost all = vs@.map_values(|v: VoltageSource| v@);
    let mut i: usize = 0;
    assert(all.skip(0) =~= all);
    while i < vs.len()
        invariant
            i <= vs.len(),
            all == vs@.map_values(|v: VoltageSource| v@),
            source_error(all) == source_error(all.skip(i as int)),
        decreases vs.len() - i,
    {
        assert(all.skip(i as int)[0] == vs@[i as int]@);
        match fault_of(&vs[i]) {
            Some(m) => {
                return Some(m);
            },
            None => {},
        }
        assert(all.skip(i as int).drop_first() =~= all.skip(i + 1));
        i += 1;
    }
    assert(all.skip(i as int) =~= Seq::<VoltageSourceView>::empty());
    None
}

impl Circuit {
    /// Checks that element values and waveforms are physically meaningful
    /// and that every MOSFET names a known model.
    pub fn validate(&self) -> (r: Result<(), SimError>)
        ensures
            match validate_spec(self@) {
                Ok(()) => r is Ok,
                Err(e) => r matches Err(x) && x@ == e,
            },
    {
        if self.nodes < 1 {
            return Err(SimError::Circuit(String::from_str("circuit has no nodes")));
        }
        if let Some(m) = first_nonpositive(&self.resistors, "resistor ", " must have R > 0") {
            return Err(SimError::Circuit(m));
        }
        if let Some(m) = first_nonpositive(&self.capacitors, "capacitor ", " must have C > 0") {
            return Err(SimError::Circuit(m));
        }
        if let Some(m) = first_nonpositive(&self.inductors, "inductor ", " must have L > 0") {
            return Err(SimError::Circuit(m));
        }
        if let Some(m) = first_bad_mosfet(&self.mosfets, &self.mosfet_models) {
            return Err(SimError::Circuit(m));
        }
        if let Some(m) = first_bad_source(&self.voltage_sources) {
            return Err(SimError::Circuit(m));
        }
        Ok(())
    }
}

} // verus!

verus! {

// ─── Summary ─────────────────────────────────────────────────────────────────

/// How a circuit is summed up for the user: its node count and how many
/// resistors, capacitors, inductors and voltage sources it has.
pub open spec fn summary_text(c: CircuitView) -> Seq<char> {
    crate::text::dec(c.nodes as nat) + " nodes · "@ + crate::text::dec(c.resistors.len()) + " R · "@
        + crate::text::dec(c.capacitors.len()) + " C · "@ + crate::text::dec(c.inductors.len())
        + " L · "@ + crate::text::dec(c.voltage_sources.len()) + " V"@
}

fn decimal_string(n: usize) -> (s: String)
    ensures
        s@ == crate::text::dec(n as nat),
{
    let mut digits: Vec<char> = Vec::new();
    crate::text::push_decimal(&mut digits, n);
    assert(digits@ =~= crate::text::dec(n as nat));
    crate::text::string_of(&digits)
}

impl Circuit {
    /// The one-line summary of the circuit.
    pub fn summary(&self) -> (s: String)
        ensures
            s@ == summary_text(self@),
    {
        decimal_string(self.nodes).concat(" nodes · ").concat(
            decimal_string(self.resistors.len()).as_str(),
        ).concat(" R · ").concat(decimal_string(self.capacitors.len()).as_str()).concat(
            " C · ",
        ).concat(decimal_string(self.inductors.len()).as_str()).concat(" L · ").concat(
            decimal_string(self.voltage_sources.len()).as_str(),
        ).concat(" V")
    }
}

} // verus!
