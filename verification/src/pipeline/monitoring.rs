//! Events that the pipeline reports about its progress.

use crate::dpu::DpuId;
use crate::pipeline::GroupId;
use vstd::prelude::*;

verus! {

#[derive(Clone, Copy, Debug, PartialEq, Eq, Structural)]
pub enum Event {
    Initialization { nr_ranks: u8, nr_slices: u8, nr_dpus: u8 },
    LoadingProgramBegin { nr_instructions: u32, nr_data_bytes: u32 },
    LoadingProgramEnd,
    ProcessBegin,
    ProcessEnd,
    NewInput,
    GroupSearchBegin,
    GroupSearchEnd(GroupId),
    GroupLoadingBegin(GroupId),
    GroupLoadingEnd(GroupId),
    JobExecutionTrackingBegin(GroupId),
    JobExecutionTrackingEnd(GroupId),
    OutputFetchingBegin(GroupId),
    OutputFetchingInfo { dpu: DpuId, offset: u32, length: u32 },
    OutputFetchingEnd(GroupId),
}

/// The part of the pipeline that reports an event.
#[derive(Clone, Copy, Debug, PartialEq, Eq, Structural)]
pub enum Process {
    Pipeline,
    Initializer,
    Mapper,
    Loader,
    Tracker,
    Fetcher,
}

#[derive(Clone, Copy, Debug, PartialEq, Eq, Structural)]
pub enum RecordPolicy {
    Disabled,
    Stdout,
}

impl Default for Process {
    fn default() -> (p: Process)
        ensures
            p == Process::Pipeline,
    {
        Process::Pipeline
    }
}

impl Default for RecordPolicy {
    fn default() -> (p: RecordPolicy)
        ensures
            p == RecordPolicy::Disabled,
    {
        RecordPolicy::Disabled
    }
}

/// An event together with the process that reported it.
#[derive(Clone, Copy, Debug, PartialEq, Eq, Structural)]
pub struct Record {
    pub process: Process,
    pub event: Event,
}

/// Tags events with the reporting process and decides whether they are kept.
#[derive(Clone, Copy, Debug, PartialEq, Eq, Structural)]
pub struct EventMonitor {
    pub process: Process,
    pub policy: RecordPolicy,
}

impl EventMonitor {
    pub fn new() -> (m: EventMonitor)
        ensures
            m == (EventMonitor { process: Process::Pipeline, policy: RecordPolicy::Disabled }),
    {
        EventMonitor { process: Process::Pipeline, policy: RecordPolicy::Disabled }
    }

    pub fn set_process(&mut self, process: Process)
        ensures
            *final(self) == (EventMonitor { process, policy: old(self).policy }),
    {
        self.process = process;
    }

    pub fn set_policy(&mut self, policy: RecordPolicy)
        ensures
            *final(self) == (EventMonitor { process: old(self).process, policy }),
    {
        self.policy = policy;
    }

    /// The record to write out for `event`: none while recording is disabled,
    /// otherwise the event tagged with this monitor's process.
    pub fn record(&self, event: Event) -> (r: Option<Record>)
        ensures
            self.policy == RecordPolicy::Disabled ==> r is None,
            self.policy == RecordPolicy::Stdout ==> r == Some(
                Record { process: self.process, event },
            ),
    {
        match self.policy {
            RecordPolicy::Disabled => None,
            RecordPolicy::Stdout => Some(Record { process: self.process, event }),
        }
    }
}

impl Default for EventMonitor {
    fn default() -> (m: EventMonitor)
        ensures
            m == (EventMonitor { process: Process::Pipeline, policy: RecordPolicy::Disabled }),
    {
        EventMonitor::new()
    }
}

} // verus!
