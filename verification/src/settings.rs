//! The limits a user sets on an application or a process, the markers the
//! table shows for them, and the form they are saved in.

use vstd::prelude::*;
use vstd::string::StringExecFns;

use crate::double::{above_zero, capped, is_above_zero, times_whole, whole_times};
use crate::units::{lemma_unit_name_round_trip, unit_from_name, unit_multiplier, unit_name, SpeedUnit};

verus! {

/// The limits set on an application or a single process, as the editor
/// holds them. Each value is a double-precision number, held by its bits
/// (`f64::to_bits`), in its unit.
#[derive(Debug, Clone, Copy, PartialEq, Eq, Structural)]
pub struct ProcessLimitState {
    pub dl_enabled: bool,
    pub dl_value: u64,
    pub dl_unit: SpeedUnit,
    pub dl_blocked: bool,
    pub ul_enabled: bool,
    pub ul_value: u64,
    pub ul_unit: SpeedUnit,
    pub ul_blocked: bool,
}

/// The state of a fresh editor: nothing set, values in KB/s.
pub open spec fn default_limit_state() -> ProcessLimitState {
    ProcessLimitState {
        dl_enabled: false,
        dl_value: 0,
        dl_unit: SpeedUnit::KBps,
        dl_blocked: false,
        ul_enabled: false,
        ul_value: 0,
        ul_unit: SpeedUnit::KBps,
        ul_blocked: false,
    }
}

/// The byterate one direction of a limit sets: 0 where it blocks, the value
/// times its unit in bytes per second (rounded down, held at `u64::MAX`)
/// where a limit is enabled with a value above zero, and none otherwise.
pub open spec fn direction_byterate(enabled: bool, value: u64, unit: SpeedUnit, blocked: bool) -> Option<nat> {
    if blocked {
        Some(0)
    } else if enabled && above_zero(value) {
        Some(capped(whole_times(value, unit_multiplier(unit))))
    } else {
        None
    }
}

/// One direction of a limit is in force: it blocks, or limits to a value
/// above zero.
pub open spec fn direction_active(enabled: bool, value: u64, blocked: bool) -> bool {
    blocked || (enabled && above_zero(value))
}

/// Anything at all is set on the limit, so that it is worth saving.
pub open spec fn any_setting(s: ProcessLimitState) -> bool {
    s.dl_enabled || s.dl_blocked || above_zero(s.dl_value) || s.ul_enabled || s.ul_blocked || above_zero(
        s.ul_value,
    )
}

impl Default for ProcessLimitState {
    fn default() -> (s: Self)
        ensures
            s == default_limit_state(),
    {
        ProcessLimitState {
            dl_enabled: false,
            dl_value: 0,
            dl_unit: SpeedUnit::KBps,
            dl_blocked: false,
            ul_enabled: false,
            ul_value: 0,
            ul_unit: SpeedUnit::KBps,
            ul_blocked: false,
        }
    }
}

/// The byterate of one direction, as `direction_byterate` gives it.
fn byterate_of(enabled: bool, value: u64, unit: SpeedUnit, blocked: bool) -> (r: Option<u64>)
    ensures
        match r {
            Some(v) => direction_byterate(enabled, value, unit, blocked) == Some(v as nat),
            None => direction_byterate(enabled, value, unit, blocked) is None,
        },
{
    if blocked {
        Some(0)
    } else if enabled && is_above_zero(value) {
        Some(times_whole(value, unit.multiplier()))
    } else {
        None
    }
}

impl ProcessLimitState {
    /// The download limit in bytes per second: 0 where download is blocked.
    pub fn download_byterate(&self) -> (r: Option<u64>)
        ensures
            match r {
                Some(v) => direction_byterate(self.dl_enabled, self.dl_value, self.dl_unit, self.dl_blocked)
                    == Some(v as nat),
                None => direction_byterate(self.dl_enabled, self.dl_value, self.dl_unit, self.dl_blocked) is None,
            },
    {
        byterate_of(self.dl_enabled, self.dl_value, self.dl_unit, self.dl_blocked)
    }

    /// The upload limit in bytes per second: 0 where upload is blocked.
    pub fn upload_byterate(&self) -> (r: Option<u64>)
        ensures
            match r {
                Some(v) => direction_byterate(self.ul_enabled, self.ul_value, self.ul_unit, self.ul_blocked)
                    == Some(v as nat),
                None => direction_byterate(self.ul_enabled, self.ul_value, self.ul_unit, self.ul_blocked) is None,
            },
    {
        byterate_of(self.ul_enabled, self.ul_value, self.ul_unit, self.ul_blocked)
    }

    /// A download limit is in force.
    pub fn dl_active(&self) -> (b: bool)
        ensures
            b == direction_active(self.dl_enabled, self.dl_value, self.dl_blocked),
    {
        self.dl_blocked || (self.dl_enabled && is_above_zero(self.dl_value))
    }

    /// An upload limit is in force.
    pub fn ul_active(&self) -> (b: bool)
        ensures
            b == direction_active(self.ul_enabled, self.ul_value, self.ul_blocked),
    {
        self.ul_blocked || (self.ul_enabled && is_above_zero(self.ul_value))
    }

    /// Anything at all is set, so that the limit is worth saving.
    pub fn has_any_setting(&self) -> (b: bool)
        ensures
            b == any_setting(*self),
    {
        self.dl_enabled || self.dl_blocked || is_above_zero(self.dl_value) || self.ul_enabled
            || self.ul_blocked || is_above_zero(self.ul_value)
    }

    /// The form the limit is saved in.
    pub fn to_process_config(&self) -> (c: ProcessConfig)
        ensures
            saved_as(*self, c),
    {
        ProcessConfig {
            dl_enabled: self.dl_enabled,
            dl_value: self.dl_value,
            dl_unit: String::from_str(self.dl_unit.as_str()),
            dl_blocked: self.dl_blocked,
            ul_enabled: self.ul_enabled,
            ul_value: self.ul_value,
            ul_unit: String::from_str(self.ul_unit.as_str()),
            ul_blocked: self.ul_blocked,
        }
    }

    /// The limit that a saved form holds; an unknown unit reads as KB/s.
    pub fn from_process_config(cfg: &ProcessConfig) -> (s: ProcessLimitState)
        ensures
            s == state_of_config(*cfg),
    {
        ProcessLimitState {
            dl_enabled: cfg.dl_enabled,
            dl_value: cfg.dl_value,
            dl_unit: SpeedUnit::from_str(cfg.dl_unit.as_str()),
            dl_blocked: cfg.dl_blocked,
            ul_enabled: cfg.ul_enabled,
            ul_value: cfg.ul_value,
            ul_unit: SpeedUnit::from_str(cfg.ul_unit.as_str()),
            ul_blocked: cfg.ul_blocked,
        }
    }
}

/// Saved limit settings for a single process, keyed by process name.
/// Values are double-precision numbers held by their bits; units are saved
/// by name.
#[derive(Debug, Clone)]
pub struct ProcessConfig {
    pub dl_enabled: bool,
    pub dl_value: u64,
    pub dl_unit: String,
    pub dl_blocked: bool,
    pub ul_enabled: bool,
    pub ul_value: u64,
    pub ul_unit: String,
    pub ul_blocked: bool,
}

/// `c` is the saved form of the limit `s`.
pub open spec fn saved_as(s: ProcessLimitState, c: ProcessConfig) -> bool {
    &&& c.dl_enabled == s.dl_enabled
    &&& c.dl_value == s.dl_value
    &&& c.dl_unit@ == unit_name(s.dl_unit)
    &&& c.dl_blocked == s.dl_blocked
    &&& c.ul_enabled == s.ul_enabled
    &&& c.ul_value == s.ul_value
    &&& c.ul_unit@ == unit_name(s.ul_unit)
    &&& c.ul_blocked == s.ul_blocked
}

/// The limit that the saved form `c` holds.
pub open spec fn state_of_config(c: ProcessConfig) -> ProcessLimitState {
    ProcessLimitState {
        dl_enabled: c.dl_enabled,
        dl_value: c.dl_value,
        dl_unit: unit_from_name(c.dl_unit@),
        dl_blocked: c.dl_blocked,
        ul_enabled: c.ul_enabled,
        ul_value: c.ul_value,
        ul_unit: unit_from_name(c.ul_unit@),
        ul_blocked: c.ul_blocked,
    }
}

/// A limit reads back unchanged from the form it is saved in.
pub proof fn lemma_saved_limit_reads_back(s: ProcessLimitState, c: ProcessConfig)
    requires
        saved_as(s, c),
    ensures
        state_of_config(c) == s,
{
    lemma_unit_name_round_trip(s.dl_unit);
    lemma_unit_name_round_trip(s.ul_unit);
}

/// Overall application settings (empty for now, ready for future use).
#[derive(Debug, Clone, Copy, PartialEq, Eq, Structural)]
pub struct AppConfig {}

impl Default for AppConfig {
    fn default() -> (c: Self)
        ensures
            c == (AppConfig {}),
    {
        AppConfig {}
    }
}

// ---------------------------------------------------------------------------
// Limit markers
// ---------------------------------------------------------------------------

/// The limit markers shown at the end of a row.
#[derive(Debug, Clone, Copy, PartialEq, Eq, Structural)]
pub struct LimitFlags {
    pub dl_active: bool,
    pub ul_active: bool,
    pub dl_blocked: bool,
    pub ul_blocked: bool,
}

/// No marker at all.
pub open spec fn no_flags() -> LimitFlags {
    LimitFlags { dl_active: false, ul_active: false, dl_blocked: false, ul_blocked: false }
}

/// The markers of a limit.
pub open spec fn flags_of(s: ProcessLimitState) -> LimitFlags {
    LimitFlags {
        dl_active: direction_active(s.dl_enabled, s.dl_value, s.dl_blocked),
        ul_active: direction_active(s.ul_enabled, s.ul_value, s.ul_blocked),
        dl_blocked: s.dl_blocked,
        ul_blocked: s.ul_blocked,
    }
}

/// The markers of two rows together: each marker shows where either row has
/// it.
pub open spec fn merged(a: LimitFlags, b: LimitFlags) -> LimitFlags {
    LimitFlags {
        dl_active: a.dl_active || b.dl_active,
        ul_active: a.ul_active || b.ul_active,
        dl_blocked: a.dl_blocked || b.dl_blocked,
        ul_blocked: a.ul_blocked || b.ul_blocked,
    }
}

impl Default for LimitFlags {
    fn default() -> (f: Self)
        ensures
            f == no_flags(),
    {
        LimitFlags { dl_active: false, ul_active: false, dl_blocked: false, ul_blocked: false }
    }
}

impl LimitFlags {
    /// The markers of a limit.
    pub fn of(state: &ProcessLimitState) -> (f: LimitFlags)
        ensures
            f == flags_of(*state),
    {
        LimitFlags {
            dl_active: state.dl_active(),
            ul_active: state.ul_active(),
            dl_blocked: state.dl_blocked,
            ul_blocked: state.ul_blocked,
        }
    }

    /// The markers of two rows together.
    pub fn merge(self, other: Self) -> (f: Self)
        ensures
            f == merged(self, other),
    {
        LimitFlags {
            dl_active: self.dl_active || other.dl_active,
            ul_active: self.ul_active || other.ul_active,
            dl_blocked: self.dl_blocked || other.dl_blocked,
            ul_blocked: self.ul_blocked || other.ul_blocked,
        }
    }
}

/// Merging markers does not depend on the order of the rows, nor on how they
/// are grouped, and a row merged with itself, or with no marker, is
/// unchanged.
pub proof fn lemma_merge_laws(a: LimitFlags, b: LimitFlags, c: LimitFlags)
    ensures
        merged(a, b) == merged(b, a),
        merged(merged(a, b), c) == merged(a, merged(b, c)),
        merged(a, a) == a,
        merged(a, no_flags()) == a,
{
}

/// A blocked direction always shows as limited too.
pub proof fn lemma_blocked_is_active(s: ProcessLimitState)
    ensures
        s.dl_blocked ==> flags_of(s).dl_active,
        s.ul_blocked ==> flags_of(s).ul_active,
{
}

/// A direction is in force exactly where it sets a byterate.
pub proof fn lemma_active_iff_byterate(s: ProcessLimitState)
    ensures
        direction_active(s.dl_enabled, s.dl_value, s.dl_blocked) <==> direction_byterate(
            s.dl_enabled,
            s.dl_value,
            s.dl_unit,
            s.dl_blocked,
        ) is Some,
        direction_active(s.ul_enabled, s.ul_value, s.ul_blocked) <==> direction_byterate(
            s.ul_enabled,
            s.ul_value,
            s.ul_unit,
            s.ul_blocked,
        ) is Some,
{
}

} // verus!
