use vstd::prelude::*;
use crate::config::Config;
use crate::history::LogEntry;

verus! {

/// An Ice Age holds during the first `ice_age_duration` ticks of every
/// `ice_age_period` ticks.
pub open spec fn ice_age_at(tick: int, config: Config) -> bool {
    tick % (config.ice_age_period as int) < config.ice_age_duration
}

/// The climate repeats every `ice_age_period` ticks.
pub proof fn lemma_ice_age_periodic(tick: int, config: Config)
    requires
        config.ice_age_period > 0,
    ensures
        ice_age_at(tick + config.ice_age_period, config) == ice_age_at(tick, config),
        ice_age_change_at_int(tick + config.ice_age_period, config) == ice_age_change_at_int(
            tick,
            config,
        ),
{
    vstd::arithmetic::div_mod::lemma_mod_add_multiples_vanish(tick, config.ice_age_period as int);
}

/// Whether `tick` starts (`Some(true)`) or ends (`Some(false)`) an Ice Age.
pub open spec fn ice_age_change_at_int(tick: int, config: Config) -> Option<bool> {
    let active = ice_age_at(tick, config);
    let phase = tick % (config.ice_age_period as int);
    if active && phase == 0 {
        Some(true)
    } else if !active && phase == config.ice_age_duration {
        Some(false)
    } else {
        None
    }
}

/// Checks whether an Ice Age is currently active.
pub fn is_ice_age(tick_count: u64, config: &Config) -> (r: bool)
    requires
        config.ice_age_period > 0,
    ensures
        r == ice_age_at(tick_count as int, *config),
{
    (tick_count % config.ice_age_period) < config.ice_age_duration
}

/// The change of climate to record at `tick`: an Ice Age starts on the first
/// tick of a period, and ends on the tick at which its duration runs out.
pub open spec fn ice_age_change_at(tick: u64, config: Config) -> Option<LogEntry> {
    match ice_age_change_at_int(tick as int, config) {
        Some(true) => Some(LogEntry::IceAgeStarted { tick }),
        Some(false) => Some(LogEntry::IceAgeEnded { tick }),
        None => None,
    }
}

/// The change of climate to record at `tick`, if any.
pub fn ice_age_change(tick: u64, config: &Config) -> (r: Option<LogEntry>)
    requires
        config.ice_age_period > 0,
    ensures
        r == ice_age_change_at(tick, *config),
{
    let active = is_ice_age(tick, config);
    let phase = tick % config.ice_age_period;
    if active && phase == 0 {
        Some(LogEntry::IceAgeStarted { tick })
    } else if !active && phase == config.ice_age_duration {
        Some(LogEntry::IceAgeEnded { tick })
    } else {
        None
    }
}

} // verus!
