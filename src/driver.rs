use vstd::prelude::*;

verus! {

/// Relies on std::time::Duration::new, here for a zero duration.
#[verifier::external_body]
fn zero_duration() -> (r: std::time::Duration) {
    std::time::Duration::new(0, 0)
}

/// What to do when the input does not parse cleanly.
#[derive(Clone, Copy, Debug, PartialEq, Eq, Structural)]
pub enum OnParseError {
    Ignore,
    Warn,
    Error,
}

/// What a parse error leads to.
#[derive(Clone, Copy, Debug, PartialEq, Eq, Structural)]
pub enum ParseErrorAction {
    /// Go on silently.
    Continue,
    /// Report the error and go on.
    Warn,
    /// Report the error and stop.
    Abort,
}

impl Default for OnParseError {
    fn default() -> (r: OnParseError)
        ensures
            r == OnParseError::Warn,
    {
        OnParseError::Warn
    }
}

impl OnParseError {
    /// The name of the choice, as written on the command line.
    pub fn name(&self) -> (r: &'static str)
        ensures
            r@ == match *self {
                OnParseError::Ignore => "ignore"@,
                OnParseError::Warn => "warn"@,
                OnParseError::Error => "error"@,
            },
    {
        match self {
            OnParseError::Ignore => "ignore",
            OnParseError::Warn => "warn",
            OnParseError::Error => "error",
        }
    }

    /// What to do, given whether the tree has a parse error.
    pub fn action(&self, has_error: bool) -> (r: ParseErrorAction)
        ensures
            r == if !has_error {
                ParseErrorAction::Continue
            } else {
                match *self {
                    OnParseError::Ignore => ParseErrorAction::Continue,
                    OnParseError::Warn => ParseErrorAction::Warn,
                    OnParseError::Error => ParseErrorAction::Abort,
                }
            },
    {
        if !has_error {
            return ParseErrorAction::Continue;
        }
        match self {
            OnParseError::Ignore => ParseErrorAction::Continue,
            OnParseError::Warn => ParseErrorAction::Warn,
            OnParseError::Error => ParseErrorAction::Abort,
        }
    }
}

pub const DEFAULT_MIN_REDUCTION: usize = 2;

pub const FAST_MIN_REDUCTION: usize = 4;

pub const SLOW_MIN_REDUCTION: usize = 1;

pub const DEFAULT_NUM_PASSES: usize = 2;

pub const FAST_NUM_PASSES: usize = 1;

/// The minimum reduction to attempt: `--fast` and `--slow` override the
/// given value.
pub fn min_reduction(fast: bool, slow: bool, requested: usize) -> (r: usize)
    ensures
        r == if fast {
            FAST_MIN_REDUCTION
        } else if slow {
            SLOW_MIN_REDUCTION
        } else {
            requested
        },
{
    if fast {
        return FAST_MIN_REDUCTION;
    }
    if slow {
        return SLOW_MIN_REDUCTION;
    }
    requested
}

/// The number of passes to run, `None` for as many as make progress:
/// `--fast` runs one; `--slow` and `--stable` run to a fixed point unless a
/// number of passes other than the default was asked for.
pub fn passes(fast: bool, slow: bool, stable: bool, requested: usize) -> (r: Option<usize>)
    ensures
        r == if fast {
            Some(FAST_NUM_PASSES)
        } else if (slow || stable) && requested == DEFAULT_NUM_PASSES {
            None
        } else {
            Some(requested)
        },
{
    if fast {
        return Some(FAST_NUM_PASSES);
    }
    if (slow || stable) && requested == DEFAULT_NUM_PASSES {
        return None;
    }
    Some(requested)
}

/// Whether the multi-pass driver runs another pass, after `done` passes of
/// which the last produced no edits when `last_empty`: with a budget, until
/// it is spent; without one, until a pass produces no edits.
pub fn run_another_pass(done: usize, max_passes: Option<usize>, last_empty: bool) -> (r: bool)
    ensures
        r == match max_passes {
            Some(m) => done < m,
            None => done == 0 || !last_empty,
        },
{
    match max_passes {
        Some(m) => done < m,
        None => done == 0 || !last_empty,
    }
}

/// Statistics of one pass.
#[derive(Debug)]
pub struct Pass {
    pub duration: std::time::Duration,
    pub start_size: usize,
    pub end_size: usize,
}

/// Statistics of a whole reduction.
#[derive(Debug)]
pub struct Stats {
    pub duration: std::time::Duration,
    pub start_size: usize,
    pub end_size: usize,
    pub passes: Vec<Pass>,
}

impl Stats {
    pub fn new() -> (r: Stats)
        ensures
            r.start_size == 0,
            r.end_size == 0,
            r.passes@.len() == 0,
    {
        Stats { duration: zero_duration(), start_size: 0, end_size: 0, passes: Vec::new() }
    }

    /// Add the statistics of a pass: the first pass's start size is the
    /// whole reduction's, the last pass's end size too.
    pub fn record_pass(&mut self, pass: Pass)
        ensures
            final(self).passes@.len() == old(self).passes@.len() + 1,
            final(self).passes@.drop_last() == old(self).passes@,
            final(self).start_size == if old(self).passes@.len() == 0 {
                pass.start_size
            } else {
                old(self).start_size
            },
            final(self).end_size == pass.end_size,
    {
        if self.passes.len() == 0 {
            self.start_size = pass.start_size;
        }
        self.end_size = pass.end_size;
        let ghost before = self.passes@;
        self.passes.push(pass);
        assert(self.passes@.drop_last() =~= before);
    }
}

impl Default for Stats {
    fn default() -> (r: Stats)
        ensures
            r.start_size == 0,
            r.end_size == 0,
            r.passes@.len() == 0,
    {
        Stats::new()
    }
}

/// Whether the statistics of tasks are printed.
#[derive(Clone, Copy, Debug)]
pub struct StatCollector {
    collect: bool,
}

impl StatCollector {
    pub fn new(collect: bool) -> (r: StatCollector)
        ensures
            r.enabled() == collect,
    {
        StatCollector { collect }
    }

    pub closed spec fn enabled(&self) -> bool {
        self.collect
    }

    pub fn is_enabled(&self) -> (r: bool)
        ensures
            r == self.enabled(),
    {
        self.collect
    }
}

} // verus!
