//! Analysis commands and the decisions taken before and around solving.
use vstd::prelude::*;

use vstd::string::StringExecFns;

use crate::circuit::{Circuit, CircuitView};
use crate::error::{SimError, SimErrorView};
use crate::text::{dec, push_decimal, string_of};
use crate::units::{ext_le_zero, ext_lt, num_lt, value_ext, Value, ValueView};

verus! {

/// Spacing of the frequencies of an `.ac` sweep.
#[derive(Clone, Copy, PartialEq, Eq, Structural, Debug)]
pub enum AcScale {
    /// Logarithmic, points per decade.
    Dec,
    /// Logarithmic, points per octave.
    Oct,
    /// Linear, points in all.
    Lin,
}

/// Parameters of an `.ac` command.
pub struct AcCommand {
    pub scale: AcScale,
    /// Points per decade or octave, or in all for a linear sweep.
    pub points: usize,
    /// Start frequency (Hz).
    pub f_start: Value,
    /// Stop frequency (Hz).
    pub f_stop: Value,
    /// Index into the circuit's voltage sources of the driven one; `None`
    /// drives the first.
    pub stimulus_source: Option<usize>,
    /// Amplitude of the stimulus (V).
    pub stimulus_amplitude: Value,
}

pub struct AcCommandView {
    pub scale: AcScale,
    pub points: usize,
    pub f_start: ValueView,
    pub f_stop: ValueView,
    pub stimulus_source: Option<usize>,
    pub stimulus_amplitude: ValueView,
}

impl View for AcCommand {
    type V = AcCommandView;

    open spec fn view(&self) -> AcCommandView {
        AcCommandView {
            scale: self.scale,
            points: self.points,
            f_start: self.f_start@,
            f_stop: self.f_stop@,
            stimulus_source: self.stimulus_source,
            stimulus_amplitude: self.stimulus_amplitude@,
        }
    }
}

/// The analyses a netlist asks for.
pub struct AnalysisCommands {
    pub dc_op: bool,
    pub tran_step: Option<Value>,
    pub tran_stop: Option<Value>,
    pub tran_start: Value,
    pub ac: Option<AcCommand>,
}

pub struct AnalysisView {
    pub dc_op: bool,
    pub tran_step: Option<ValueView>,
    pub tran_stop: Option<ValueView>,
    pub tran_start: ValueView,
    pub ac: Option<AcCommandView>,
}

impl View for AnalysisCommands {
    type V = AnalysisView;

    open spec fn view(&self) -> AnalysisView {
        AnalysisView {
            dc_op: self.dc_op,
            tran_step: match &self.tran_step {
                Some(v) => Some(v@),
                None => None,
            },
            tran_stop: match &self.tran_stop {
                Some(v) => Some(v@),
                None => None,
            },
            tran_start: self.tran_start@,
            ac: match &self.ac {
                Some(a) => Some(a@),
                None => None,
            },
        }
    }
}

/// No analysis asked for; transient analysis starts at time zero.
pub open spec fn default_analysis() -> AnalysisView {
    AnalysisView {
        dc_op: false,
        tran_step: None,
        tran_stop: None,
        tran_start: ValueView { literal: "0.0"@, scale: 0 },
        ac: None,
    }
}

impl Default for AnalysisCommands {
    fn default() -> (a: Self)
        ensures
            a@ == default_analysis(),
    {
        AnalysisCommands {
            dc_op: false,
            tran_step: None,
            tran_stop: None,
            tran_start: Value::plain("0.0"),
            ac: None,
        }
    }
}

// ─── Which analyses run ──────────────────────────────────────────────────────

/// The analyses a run performs.
#[derive(Clone, Copy, PartialEq, Eq, Structural, Debug)]
pub struct AnalysisPlan {
    pub dc: bool,
    pub tran: bool,
    pub ac: bool,
}

/// DC runs when asked for, or when nothing else is; transient needs both its
/// step and its stop time; AC runs when asked for. Asking for nothing that
/// can run is an error.
pub open spec fn plan_spec(a: AnalysisView) -> Result<AnalysisPlan, SimErrorView> {
    let dc = a.dc_op || (a.tran_step is None && a.tran_stop is None && a.ac is None);
    let tran = a.tran_step is Some && a.tran_stop is Some;
    let ac = a.ac is Some;
    if !dc && !tran && !ac {
        Err(SimErrorView::Analysis("no analysis specified; add .op, .tran, or .ac"@))
    } else {
        Ok(AnalysisPlan { dc, tran, ac })
    }
}

/// Every analysis that the commands ask for runs, whatever else they ask
/// for: the AC sweep exactly when there is an `.ac` card, the transient
/// exactly when a step and a stop are set, the DC point whenever `.op` is
/// given; a plan is refused only when `.op`, `.ac` and a complete `.tran` are
/// all missing, and commands that ask for nothing run the DC point alone.
pub proof fn law_plan_runs_what_is_asked(a: AnalysisView)
    ensures
        plan_spec(a) matches Ok(p) ==> {
            &&& p.ac == (a.ac is Some)
            &&& p.tran == (a.tran_step is Some && a.tran_stop is Some)
            &&& a.dc_op ==> p.dc
        },
        (a.dc_op || a.ac is Some || (a.tran_step is Some && a.tran_stop is Some)) ==> plan_spec(
            a,
        ) is Ok,
        (a.ac is None && a.tran_step is None && a.tran_stop is None) ==> plan_spec(a) == Ok::<
            AnalysisPlan,
            SimErrorView,
        >(AnalysisPlan { dc: true, tran: false, ac: false }),
{
}

/// Decides which analyses to run.
pub fn analysis_plan(a: &AnalysisCommands) -> (r: Result<AnalysisPlan, SimError>)
    ensures
        match plan_spec(a@) {
            Ok(p) => r == Ok::<AnalysisPlan, SimError>(p),
            Err(e) => r matches Err(x) && x@ == e,
        },
{
    let dc = a.dc_op || (a.tran_step.is_none() && a.tran_stop.is_none() && a.ac.is_none());
    let tran = a.tran_step.is_some() && a.tran_stop.is_some();
    let ac = a.ac.is_some();
    if !dc && !tran && !ac {
        return Err(
            SimError::Analysis(String::from_str("no analysis specified; add .op, .tran, or .ac")),
        );
    }
    Ok(AnalysisPlan { dc, tran, ac })
}

/// A transient window must not end before it starts.
pub open spec fn window_spec(start: ValueView, stop: ValueView) -> Result<(), SimErrorView> {
    if ext_lt(value_ext(stop), value_ext(start)) {
        Err(SimErrorView::Analysis("tstop must be >= tstart"@))
    } else {
        Ok(())
    }
}

pub fn check_transient_window(start: &Value, stop: &Value) -> (r: Result<(), SimError>)
    ensures
        match window_spec(start@, stop@) {
            Ok(()) => r is Ok,
            Err(e) => r matches Err(x) && x@ == e,
        },
{
    if num_lt(&stop.number(), &start.number()) {
        Err(SimError::Analysis(String::from_str("tstop must be >= tstart")))
    } else {
        Ok(())
    }
}

/// A transient time step must be positive.
pub open spec fn step_spec(step: ValueView) -> Result<(), SimErrorView> {
    if ext_le_zero(value_ext(step)) {
        Err(SimErrorView::Analysis("time step must be positive"@))
    } else {
        Ok(())
    }
}

pub fn check_time_step(step: &Value) -> (r: Result<(), SimError>)
    ensures
        match step_spec(step@) {
            Ok(()) => r is Ok,
            Err(e) => r matches Err(x) && x@ == e,
        },
{
    if step.number().le_zero() {
        Err(SimError::Analysis(String::from_str("time step must be positive")))
    } else {
        Ok(())
    }
}

/// The voltage source that drives an AC sweep, and the node it drives.
#[derive(Clone, Copy, PartialEq, Eq, Structural, Debug)]
pub struct AcStimulus {
    pub source: usize,
    pub node: usize,
}

/// What makes an AC sweep impossible, in the order it is checked; otherwise
/// the stimulus.
pub open spec fn ac_stimulus_spec(c: CircuitView, cmd: AcCommandView) -> Result<
    AcStimulus,
    SimErrorView,
> {
    let stim = match cmd.stimulus_source {
        Some(k) => k,
        None => 0,
    };
    if ext_le_zero(value_ext(cmd.f_start)) {
        Err(SimErrorView::Analysis("AC start frequency must be > 0 Hz"@))
    } else if ext_lt(value_ext(cmd.f_stop), value_ext(cmd.f_start)) {
        Err(SimErrorView::Analysis("AC stop frequency must be >= start frequency"@))
    } else if cmd.points == 0 {
        Err(SimErrorView::Analysis("AC analysis requires at least 1 point"@))
    } else if c.voltage_sources.len() == 0 {
        Err(
            SimErrorView::Analysis(
                "AC analysis requires at least one voltage source as a stimulus"@,
            ),
        )
    } else if stim >= c.voltage_sources.len() {
        Err(
            SimErrorView::Analysis(
                "stimulus source index "@ + dec(stim as nat) + " out of range (circuit has "@
                    + dec(c.voltage_sources.len()) + " voltage sources)"@,
            ),
        )
    } else {
        Ok(AcStimulus { source: stim, node: c.voltage_sources[stim as int].n1 })
    }
}

/// Checks an AC command against the circuit and picks its stimulus.
pub fn ac_stimulus(circuit: &Circuit, cmd: &AcCommand) -> (r: Result<AcStimulus, SimError>)
    ensures
        match ac_stimulus_spec(circuit@, cmd@) {
            Ok(s) => r == Ok::<AcStimulus, SimError>(s),
            Err(e) => r matches Err(x) && x@ == e,
        },
{
    let f_start = cmd.f_start.number();
    if f_start.le_zero() {
        return Err(SimError::Analysis(String::from_str("AC start frequency must be > 0 Hz")));
    }
    if num_lt(&cmd.f_stop.number(), &f_start) {
        return Err(
            SimError::Analysis(String::from_str("AC stop frequency must be >= start frequency")),
        );
    }
    if cmd.points == 0 {
        return Err(SimError::Analysis(String::from_str("AC analysis requires at least 1 point")));
    }
    let n = circuit.voltage_sources.len();
    if n == 0 {
        return Err(
            SimError::Analysis(
                String::from_str("AC analysis requires at least one voltage source as a stimulus"),
            ),
        );
    }
    let stim = match cmd.stimulus_source {
        Some(k) => k,
        None => 0,
    };
    if stim >= n {
        let mut a: Vec<char> = Vec::new();
        push_decimal(&mut a, stim);
        let mut b: Vec<char> = Vec::new();
        push_decimal(&mut b, n);
        assert(a@ =~= dec(stim as nat));
        assert(b@ =~= dec(n as nat));
        let m = String::from_str("stimulus source index ").concat(string_of(&a).as_str()).concat(
            " out of range (circuit has ",
        ).concat(string_of(&b).as_str()).concat(" voltage sources)");
        return Err(SimError::Analysis(m));
    }
    assert(circuit@.voltage_sources[stim as int] == circuit.voltage_sources@[stim as int]@);
    Ok(AcStimulus { source: stim, node: circuit.voltage_sources[stim].n1.0 })
}

} // verus!
