//! A user's text-generation parameters and the `/params set` update of them.
//!
//! The fractional parameters are `f64` values; this module holds them as
//! their IEEE-754 bit patterns (`f64::to_bits`) and only moves them, so the
//! update is exact whatever the values are.

use vstd::prelude::*;

verus! {

/// A user's generation parameters.
#[derive(Clone, Copy, Debug, PartialEq, Eq)]
pub struct GenerationSettings {
    /// Probability to keep the most probable token (bits of an `f64`).
    pub temperature: u64,
    /// Probability multiplier to skip the most probable token (bits of an `f64`).
    pub temperature_alpha: u64,
    /// Reverse probability to skip a repeated token (bits of an `f64`).
    pub repeat_penalty: u64,
    /// Size of the window in which repeats are counted.
    pub repeat_penalty_window: usize,
    /// Share of tokens kept from the normal distribution (bits of an `f64`).
    pub k_normal: u64,
    /// Minimum length of the generated text.
    pub min_len: usize,
    /// Maximum length of the generated text.
    pub max_len: usize,
    /// Do not use bigrams for generation.
    pub no_bigrams: bool,
    /// Do not use trigrams for generation.
    pub no_trigrams: bool,
}

/// The parameters given to `/params set`; those not given keep their value.
#[derive(Clone, Copy, Debug, PartialEq, Eq, Default)]
pub struct SettingsUpdate {
    pub temperature: Option<u64>,
    pub temperature_alpha: Option<u64>,
    pub repeat_penalty: Option<u64>,
    pub repeat_penalty_window: Option<usize>,
    pub k_normal: Option<u64>,
    pub min_len: Option<usize>,
    pub max_len: Option<usize>,
    pub no_bigrams: Option<bool>,
    pub no_trigrams: Option<bool>,
}

/// The new value if one is given, else the current one.
pub open spec fn given_or<T>(given: Option<T>, current: T) -> T {
    match given {
        Some(v) => v,
        None => current,
    }
}

/// The parameters after an update.
pub open spec fn updated(current: GenerationSettings, update: SettingsUpdate) -> GenerationSettings {
    GenerationSettings {
        temperature: given_or(update.temperature, current.temperature),
        temperature_alpha: given_or(update.temperature_alpha, current.temperature_alpha),
        repeat_penalty: given_or(update.repeat_penalty, current.repeat_penalty),
        repeat_penalty_window: given_or(update.repeat_penalty_window, current.repeat_penalty_window),
        k_normal: given_or(update.k_normal, current.k_normal),
        min_len: given_or(update.min_len, current.min_len),
        max_len: given_or(update.max_len, current.max_len),
        no_bigrams: given_or(update.no_bigrams, current.no_bigrams),
        no_trigrams: given_or(update.no_trigrams, current.no_trigrams),
    }
}

/// An update that gives no parameter.
pub open spec fn no_change() -> SettingsUpdate {
    SettingsUpdate {
        temperature: None,
        temperature_alpha: None,
        repeat_penalty: None,
        repeat_penalty_window: None,
        k_normal: None,
        min_len: None,
        max_len: None,
        no_bigrams: None,
        no_trigrams: None,
    }
}

fn given_or_u64(given: Option<u64>, current: u64) -> (v: u64)
    ensures
        v == given_or(given, current),
{
    match given {
        Some(v) => v,
        None => current,
    }
}

fn given_or_usize(given: Option<usize>, current: usize) -> (v: usize)
    ensures
        v == given_or(given, current),
{
    match given {
        Some(v) => v,
        None => current,
    }
}

fn given_or_bool(given: Option<bool>, current: bool) -> (v: bool)
    ensures
        v == given_or(given, current),
{
    match given {
        Some(v) => v,
        None => current,
    }
}

/// The parameters after `/params set`: each parameter given replaces the
/// current one, the others stay.
pub fn apply_update(current: GenerationSettings, update: SettingsUpdate) -> (next: GenerationSettings)
    ensures
        next == updated(current, update),
        update.temperature matches Some(v) ==> next.temperature == v,
        update.temperature is None ==> next.temperature == current.temperature,
        update.temperature_alpha matches Some(v) ==> next.temperature_alpha == v,
        update.temperature_alpha is None ==> next.temperature_alpha == current.temperature_alpha,
        update.repeat_penalty matches Some(v) ==> next.repeat_penalty == v,
        update.repeat_penalty is None ==> next.repeat_penalty == current.repeat_penalty,
        update.repeat_penalty_window matches Some(v) ==> next.repeat_penalty_window == v,
        update.repeat_penalty_window is None ==> next.repeat_penalty_window == current.repeat_penalty_window,
        update.k_normal matches Some(v) ==> next.k_normal == v,
        update.k_normal is None ==> next.k_normal == current.k_normal,
        update.min_len matches Some(v) ==> next.min_len == v,
        update.min_len is None ==> next.min_len == current.min_len,
        update.max_len matches Some(v) ==> next.max_len == v,
        update.max_len is None ==> next.max_len == current.max_len,
        update.no_bigrams matches Some(v) ==> next.no_bigrams == v,
        update.no_bigrams is None ==> next.no_bigrams == current.no_bigrams,
        update.no_trigrams matches Some(v) ==> next.no_trigrams == v,
        update.no_trigrams is None ==> next.no_trigrams == current.no_trigrams,
{
    GenerationSettings {
        temperature: given_or_u64(update.temperature, current.temperature),
        temperature_alpha: given_or_u64(update.temperature_alpha, current.temperature_alpha),
        repeat_penalty: given_or_u64(update.repeat_penalty, current.repeat_penalty),
        repeat_penalty_window: given_or_usize(
            update.repeat_penalty_window,
            current.repeat_penalty_window,
        ),
        k_normal: given_or_u64(update.k_normal, current.k_normal),
        min_len: given_or_usize(update.min_len, current.min_len),
        max_len: given_or_usize(update.max_len, current.max_len),
        no_bigrams: given_or_bool(update.no_bigrams, current.no_bigrams),
        no_trigrams: given_or_bool(update.no_trigrams, current.no_trigrams),
    }
}

/// A user's stored parameters: those read from the database, else (no row,
/// or a row that could not be read) the given defaults.
pub fn stored_or_default(stored: Option<GenerationSettings>, defaults: GenerationSettings) -> (params:
    GenerationSettings)
    ensures
        params == given_or(stored, defaults),
{
    match stored {
        Some(p) => p,
        None => defaults,
    }
}

/// Each parameter that an update gives takes the given value, and each
/// parameter it does not give keeps its current value.
pub proof fn law_update_per_parameter(current: GenerationSettings, update: SettingsUpdate)
    ensures
        update.temperature matches Some(v) ==> updated(current, update).temperature == v,
        update.temperature is None ==> updated(current, update).temperature == current.temperature,
        update.temperature_alpha matches Some(v) ==> updated(current, update).temperature_alpha == v,
        update.temperature_alpha is None ==> updated(current, update).temperature_alpha == current.temperature_alpha,
        update.repeat_penalty matches Some(v) ==> updated(current, update).repeat_penalty == v,
        update.repeat_penalty is None ==> updated(current, update).repeat_penalty == current.repeat_penalty,
        update.repeat_penalty_window matches Some(v) ==> updated(current, update).repeat_penalty_window == v,
        update.repeat_penalty_window is None ==> updated(current, update).repeat_penalty_window == current.repeat_penalty_window,
        update.k_normal matches Some(v) ==> updated(current, update).k_normal == v,
        update.k_normal is None ==> updated(current, update).k_normal == current.k_normal,
        update.min_len matches Some(v) ==> updated(current, update).min_len == v,
        update.min_len is None ==> updated(current, update).min_len == current.min_len,
        update.max_len matches Some(v) ==> updated(current, update).max_len == v,
        update.max_len is None ==> updated(current, update).max_len == current.max_len,
        update.no_bigrams matches Some(v) ==> updated(current, update).no_bigrams == v,
        update.no_bigrams is None ==> updated(current, update).no_bigrams == current.no_bigrams,
        update.no_trigrams matches Some(v) ==> updated(current, update).no_trigrams == v,
        update.no_trigrams is None ==> updated(current, update).no_trigrams == current.no_trigrams,
{
}

/// An update that gives no parameter leaves the parameters as they are.
pub proof fn law_empty_update_keeps(current: GenerationSettings)
    ensures
        updated(current, no_change()) == current,
{
}

/// Setting the same parameters a second time changes nothing more.
pub proof fn law_update_idempotent(current: GenerationSettings, update: SettingsUpdate)
    ensures
        updated(updated(current, update), update) == updated(current, update),
{
}

/// After an update, a later update decides each parameter it gives, and the
/// earlier one each parameter only it gives.
pub proof fn law_later_update_wins(
    current: GenerationSettings,
    first: SettingsUpdate,
    second: SettingsUpdate,
)
    ensures
        updated(updated(current, first), second) == updated(
            current,
            SettingsUpdate {
                temperature: if second.temperature is Some { second.temperature } else { first.temperature },
                temperature_alpha: if second.temperature_alpha is Some { second.temperature_alpha } else { first.temperature_alpha },
                repeat_penalty: if second.repeat_penalty is Some { second.repeat_penalty } else { first.repeat_penalty },
                repeat_penalty_window: if second.repeat_penalty_window is Some { second.repeat_penalty_window } else { first.repeat_penalty_window },
                k_normal: if second.k_normal is Some { second.k_normal } else { first.k_normal },
                min_len: if second.min_len is Some { second.min_len } else { first.min_len },
                max_len: if second.max_len is Some { second.max_len } else { first.max_len },
                no_bigrams: if second.no_bigrams is Some { second.no_bigrams } else { first.no_bigrams },
                no_trigrams: if second.no_trigrams is Some { second.no_trigrams } else { first.no_trigrams },
            },
        ),
{
}

} // verus!
