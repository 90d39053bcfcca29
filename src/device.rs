use vstd::prelude::*;

verus! {

/// Readings of the device's analog-to-digital converter.
#[derive(Clone, Copy, Debug, PartialEq, Eq, Structural)]
pub struct I2CADCRead {
    pub battery_ma: i16,
    pub battery_mv: u16,
    pub esp_vin_mv: u16,
    pub generator_mv: u16,
    pub pressure_mv: u16,
}

/// A device-to-cloud state report.
#[derive(Clone, Copy, Debug, PartialEq, Eq, Structural)]
pub struct DeviceState {
    pub i2c_adc_state: I2CADCRead,
    pub pwm_pct: u8,
    pub n_pulses: u16,
    pub time_ms: u64,
}

/// A cloud-to-device control command: enable flags.
#[derive(Clone, Copy, Debug, PartialEq, Eq, Structural)]
pub struct DeviceControl {
    pub enable_charger: bool,
    pub enable_pressure: bool,
}

} // verus!
