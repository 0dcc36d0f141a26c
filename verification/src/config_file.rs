//! Execution options, as given on the command line or in a configuration
//! file, and how two sources of them combine.

use vstd::prelude::*;

verus! {

/// The first option where it is set, else the second.
pub open spec fn or_else<T>(first: Option<T>, second: Option<T>) -> Option<T> {
    if first.is_some() {
        first
    } else {
        second
    }
}

fn first_of<T>(first: Option<T>, second: Option<T>) -> (chosen: Option<T>)
    ensures
        chosen == or_else(first, second),
{
    match first {
        Some(value) => Some(value),
        None => second,
    }
}

/// `num_cpus::get`: the number of logical CPUs that the machine offers to
/// this process. Its documentation promises a count of at least one; which
/// count it is depends on the machine.
#[verifier::external_body]
pub(crate) fn logical_cpus() -> (count: usize)
    ensures
        count >= 1,
{
    num_cpus::get()
}

/// Options of one run.
#[derive(Debug)]
pub struct ExecConfig {
    /// Root directory; the working directory of commands that name none.
    pub root_dir: Option<String>,
    /// The file that describes the steps.
    pub config: Option<String>,
    /// Number of worker threads.
    pub threads: Option<usize>,
    /// Run every command, even where its output is fresh.
    pub refresh: bool,
    /// No progress notifications.
    pub quiet: bool,
    /// Pass the output of the commands on to the caller's own streams.
    pub transparent: bool,
    /// Where to write the plan as a graph.
    pub plan_dot: Option<String>,
    /// Where to write the statistics as a graph.
    pub stats_dot: Option<String>,
    /// Name of the target to build.
    pub target: Option<String>,
}

impl Default for ExecConfig {
    fn default() -> (config: Self)
        ensures
            config.root_dir.is_none(),
            config.config.is_none(),
            config.threads.is_none(),
            !config.refresh,
            !config.quiet,
            !config.transparent,
            config.plan_dot.is_none(),
            config.stats_dot.is_none(),
            config.target.is_none(),
    {
        ExecConfig {
            root_dir: None,
            config: None,
            threads: None,
            refresh: false,
            quiet: false,
            transparent: false,
            plan_dot: None,
            stats_dot: None,
            target: None,
        }
    }
}

impl ExecConfig {
    /// The number of worker threads where one was chosen, else the count
    /// that was detected.
    pub fn threads_or(&self, detected: usize) -> (count: usize)
        ensures
            count == match self.threads {
                Some(chosen) => chosen,
                None => detected,
            },
    {
        match self.threads {
            Some(chosen) => chosen,
            None => detected,
        }
    }

    /// The number of worker threads: the chosen one, else the number of
    /// logical CPUs of the machine, which is at least one.
    pub fn threads(&self) -> (count: usize)
        ensures
            self.threads.is_some() ==> count == self.threads.unwrap(),
            self.threads.is_none() ==> count >= 1,
    {
        match self.threads {
            Some(chosen) => chosen,
            None => {
                let detected = logical_cpus();
                self.threads_or(detected)
            },
        }
    }

    /// Combines two sources of options: what `self` sets wins, `other`
    /// fills in the rest; a switch is on where either side has it on.
    pub fn merge(self, other: Self) -> (both: Self)
        ensures
            both.root_dir == or_else(self.root_dir, other.root_dir),
            both.config == or_else(self.config, other.config),
            both.threads == or_else(self.threads, other.threads),
            both.refresh == (self.refresh || other.refresh),
            both.quiet == (self.quiet || other.quiet),
            both.transparent == (self.transparent || other.transparent),
            both.plan_dot == or_else(self.plan_dot, other.plan_dot),
            both.stats_dot == or_else(self.stats_dot, other.stats_dot),
            both.target == or_else(self.target, other.target),
    {
        ExecConfig {
            root_dir: first_of(self.root_dir, other.root_dir),
            config: first_of(self.config, other.config),
            threads: first_of(self.threads, other.threads),
            refresh: self.refresh || other.refresh,
            quiet: self.quiet || other.quiet,
            transparent: self.transparent || other.transparent,
            plan_dot: first_of(self.plan_dot, other.plan_dot),
            stats_dot: first_of(self.stats_dot, other.stats_dot),
            target: first_of(self.target, other.target),
        }
    }

    /// The same options with the root directory set to `fallback` where
    /// none was given.
    pub fn with_root_dir(self, fallback: String) -> (config: Self)
        ensures
            config.root_dir == Some(
                match self.root_dir {
                    Some(dir) => dir,
                    None => fallback,
                },
            ),
            config.config == self.config,
            config.threads == self.threads,
            config.refresh == self.refresh,
            config.quiet == self.quiet,
            config.transparent == self.transparent,
            config.plan_dot == self.plan_dot,
            config.stats_dot == self.stats_dot,
            config.target == self.target,
    {
        let dir = match self.root_dir {
            Some(dir) => dir,
            None => fallback,
        };
        ExecConfig {
            root_dir: Some(dir),
            config: self.config,
            threads: self.threads,
            refresh: self.refresh,
            quiet: self.quiet,
            transparent: self.transparent,
            plan_dot: self.plan_dot,
            stats_dot: self.stats_dot,
            target: self.target,
        }
    }

    /// The root directory.
    pub fn root_dir(&self) -> (dir: String)
        requires
            self.root_dir.is_some(),
        ensures
            Some(dir) == self.root_dir,
    {
        match &self.root_dir {
            Some(dir) => dir.clone(),
            None => String::new(),
        }
    }

    /// The file that describes the steps.
    pub fn python(&self) -> (file: String)
        requires
            self.config.is_some(),
        ensures
            Some(file) == self.config,
    {
        match &self.config {
            Some(file) => file.clone(),
            None => String::new(),
        }
    }
}

} // verus!
