//! Which messages are logged.
use vstd::prelude::*;

verus! {

/// Where the filter for log messages comes from.
pub enum FilterSource<F> {
    /// The filter that the environment asks for.
    Environment(F),
    /// Messages of a level and of those above it.
    Level(&'static str),
}

/// Chooses the filter for log messages: that of the environment goes before the
/// level of the caller, and without either warnings and errors are logged.
pub fn choose_filter<F>(environment: Option<F>, default_level: Option<&'static str>) -> (source:
    FilterSource<F>)
    ensures
        environment matches Some(filter) ==> source == FilterSource::Environment(filter),
        environment is None ==> (default_level matches Some(level) ==> source
            == FilterSource::<F>::Level(level)),
        environment is None && default_level is None ==> (source matches FilterSource::Level(level)
            && level@ == "warn"@),
{
    match environment {
        Some(filter) => FilterSource::Environment(filter),
        None => match default_level {
            Some(level) => FilterSource::Level(level),
            None => FilterSource::Level("warn"),
        },
    }
}

} // verus!
