use vstd::prelude::*;
use crate::device::{DeviceControl, DeviceState};

verus! {

/// What a publish payload resolves to.
#[derive(Clone, Copy, Debug, PartialEq, Eq, Structural)]
pub enum Envelope {
    Report(DeviceState),
    Control(DeviceControl),
    /// The payload matched no shape, or matched both and is ambiguous.
    ParseError,
}

/// Whether a payload matched both shapes, so that no single one can be picked.
pub fn is_ambiguous(report: &Option<DeviceState>, control: &Option<DeviceControl>) -> (r: bool)
    ensures
        r == (report.is_some() && control.is_some()),
{
    report.is_some() && control.is_some()
}

/// Resolves a payload from the outcome of parsing it against each shape:
/// the report shape has priority, and a payload matching both is rejected.
pub fn interpret(report: Option<DeviceState>, control: Option<DeviceControl>) -> (r: Envelope)
    ensures
        report.is_some() && control.is_some() ==> r == Envelope::ParseError,
        report.is_some() && control.is_none() ==> r == Envelope::Report(report.unwrap()),
        report.is_none() && control.is_some() ==> r == Envelope::Control(control.unwrap()),
        report.is_none() && control.is_none() ==> r == Envelope::ParseError,
{
    if is_ambiguous(&report, &control) {
        return Envelope::ParseError;
    }
    match report {
        Some(s) => Envelope::Report(s),
        None => match control {
            Some(c) => Envelope::Control(c),
            None => Envelope::ParseError,
        },
    }
}

} // verus!
