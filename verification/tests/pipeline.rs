use dpu_cluster_core::dpu::DpuId;
use dpu_cluster_core::driver::RunStatus;
use dpu_cluster_core::error::ClusterError;
use dpu_cluster_core::memory::MemoryTransfer;
use dpu_cluster_core::pipeline::groups::create_groups_from;
use dpu_cluster_core::pipeline::monitoring::Event;
use dpu_cluster_core::pipeline::monitoring::EventMonitor;
use dpu_cluster_core::pipeline::monitoring::Process;
use dpu_cluster_core::pipeline::stages::fetcher::FetcherReply;
use dpu_cluster_core::pipeline::stages::fetcher::FetcherRequest;
use dpu_cluster_core::pipeline::stages::fetcher::OutputFetcher;
use dpu_cluster_core::pipeline::stages::initializer::InitializerReply;
use dpu_cluster_core::pipeline::stages::initializer::InitializerRequest;
use dpu_cluster_core::pipeline::stages::initializer::InputInitializer;
use dpu_cluster_core::pipeline::stages::loader::InputLoader;
use dpu_cluster_core::pipeline::stages::loader::LoaderReply;
use dpu_cluster_core::pipeline::stages::loader::LoaderRequest;
use dpu_cluster_core::pipeline::stages::mapper::MapperRequest;
use dpu_cluster_core::pipeline::stages::mapper::SimpleMapper;
use dpu_cluster_core::pipeline::stages::mapper::SimpleReply;
use dpu_cluster_core::pipeline::stages::persistent::PersistentMapper;
use dpu_cluster_core::pipeline::stages::persistent::PersistentReply;
use dpu_cluster_core::pipeline::stages::persistent::PersistentRequest;
use dpu_cluster_core::pipeline::stages::tracker::ExecutionTracker;
use dpu_cluster_core::pipeline::stages::tracker::TrackerReply;
use dpu_cluster_core::pipeline::stages::tracker::TrackerRequest;
use dpu_cluster_core::pipeline::stages::DpuGroup;
use dpu_cluster_core::pipeline::stages::Effect;
use dpu_cluster_core::pipeline::stages::GroupJob;
use dpu_cluster_core::pipeline::stages::GroupTransfer;
use dpu_cluster_core::pipeline::transfer::InputMemoryTransfer;
use dpu_cluster_core::pipeline::transfer::MemoryTransfers;
use dpu_cluster_core::pipeline::transfer::OutputMemoryTransfer;
use dpu_cluster_core::pipeline::GroupPolicy;
use dpu_cluster_core::pipeline::OutputResult;
use dpu_cluster_core::pipeline::PipelineError;
use dpu_cluster_core::target::CniStatus;
use dpu_cluster_core::target::DpuError;
use std::collections::HashMap;
use std::collections::VecDeque;

/// A stand-in for the DPUs: each has 64 bytes of memory, and its program
/// writes the two bytes at offset 0, each plus 2, to offset 4, and the byte at
/// offset 8 unchanged to offset 9.
struct Dpus {
    memory: HashMap<DpuId, Vec<u8>>,
    busy: HashMap<DpuId, u32>,
    polls_until_idle: u32,
    faulting: Vec<DpuId>,
    failing_copies_to: u32,
    failing_boots: u32,
    failing_copies_from: u32,
    failing_polls: u32,
    boots: Vec<DpuId>,
    copies_to: u32,
}

impl Dpus {
    fn new() -> Dpus {
        Dpus {
            memory: HashMap::new(),
            busy: HashMap::new(),
            polls_until_idle: 1,
            faulting: Vec::new(),
            failing_copies_to: 0,
            failing_boots: 0,
            failing_copies_from: 0,
            failing_polls: 0,
            boots: Vec::new(),
            copies_to: 0,
        }
    }

    fn failure() -> ClusterError {
        ClusterError::LowLevelError(DpuError(CniStatus::DriverError))
    }

    fn copy_to_memory(&mut self, transfer: MemoryTransfer) -> Result<(), ClusterError> {
        self.copies_to += 1;
        if self.failing_copies_to > 0 {
            self.failing_copies_to -= 1;
            return Err(Dpus::failure());
        }
        for (_, rank) in transfer.0 {
            for (dpu, entry) in rank.0 {
                let memory = self.memory.entry(dpu).or_insert_with(|| vec![0u8; 64]);
                let offset = entry.offset as usize;
                memory[offset..offset + entry.reference.len()].copy_from_slice(&entry.reference);
            }
        }
        Ok(())
    }

    fn boot(&mut self, dpu: DpuId) -> Result<(), ClusterError> {
        if self.failing_boots > 0 {
            self.failing_boots -= 1;
            return Err(Dpus::failure());
        }
        self.boots.push(dpu);
        let memory = self.memory.entry(dpu).or_insert_with(|| vec![0u8; 64]);
        memory[4] = memory[0].wrapping_add(2);
        memory[5] = memory[1].wrapping_add(2);
        memory[9] = memory[8];
        self.busy.insert(dpu, self.polls_until_idle);
        Ok(())
    }

    fn fetch_status(&mut self, dpu: DpuId) -> Result<RunStatus, ClusterError> {
        if self.failing_polls > 0 {
            self.failing_polls -= 1;
            return Err(Dpus::failure());
        }
        if let Some(at) = self.faulting.iter().position(|d| *d == dpu) {
            self.faulting.remove(at);
            return Ok(RunStatus::Fault(vec![dpu]));
        }
        let left = self.busy.entry(dpu).or_insert(0);
        if *left > 0 {
            *left -= 1;
            Ok(RunStatus::Running)
        } else {
            Ok(RunStatus::Idle)
        }
    }

    fn copy_from_memory(&mut self, mut transfer: MemoryTransfer) -> Result<MemoryTransfer, ClusterError> {
        if self.failing_copies_from > 0 {
            self.failing_copies_from -= 1;
            return Err(Dpus::failure());
        }
        for (_, rank) in transfer.0.iter_mut() {
            for (dpu, entry) in rank.0.iter_mut() {
                let memory = self.memory.entry(*dpu).or_insert_with(|| vec![0u8; 64]);
                let offset = entry.offset as usize;
                let length = entry.reference.len();
                entry.reference.copy_from_slice(&memory[offset..offset + length]);
            }
        }
        Ok(transfer)
    }
}

/// The channels between the stages and what has come out of the pipeline.
struct Channels<K> {
    transfers: VecDeque<GroupTransfer<K>>,
    jobs: VecDeque<GroupJob<K>>,
    finished: VecDeque<GroupJob<K>>,
    free: VecDeque<DpuGroup>,
    outputs: Vec<OutputResult<K>>,
    events: Vec<(Process, Event)>,
    batches: Vec<(u32, usize)>,
}

impl<K> Channels<K> {
    fn new() -> Channels<K> {
        Channels {
            transfers: VecDeque::new(),
            jobs: VecDeque::new(),
            finished: VecDeque::new(),
            free: VecDeque::new(),
            outputs: Vec::new(),
            events: Vec::new(),
            batches: Vec::new(),
        }
    }

    fn perform(&mut self, process: Process, effects: Vec<Effect<K>>) {
        for effect in effects {
            match effect {
                Effect::Record(event) => self.events.push((process, event)),
                Effect::Transfer(transfer) => {
                    self.batches.push((transfer.0.id, transfer.2.len()));
                    self.transfers.push_back(transfer)
                },
                Effect::Job(job) => self.jobs.push_back(job),
                Effect::Finished(job) => self.finished.push_back(job),
                Effect::Release(group) => self.free.push_back(group),
                Effect::Output(result) => self.outputs.push(result),
            }
        }
    }
}

/// The three stages behind the mapper, run against the stand-in DPUs.
struct Downstream<K> {
    loader: InputLoader<K>,
    tracker: ExecutionTracker<K>,
    fetcher: OutputFetcher<K>,
    loader_asks: Option<LoaderRequest>,
    tracker_asks: Option<TrackerRequest>,
    fetcher_asks: Option<FetcherRequest>,
    torn: usize,
}

impl<K> Downstream<K> {
    fn start(channels: &mut Channels<K>) -> Downstream<K> {
        let monitoring = EventMonitor::new();
        let mut loader = InputLoader::new(monitoring);
        let mut tracker = ExecutionTracker::new(None, monitoring);
        let mut fetcher = OutputFetcher::new(monitoring);
        let step = loader.start();
        channels.perform(Process::Loader, step.effects);
        let loader_asks = Some(step.request);
        let step = tracker.start();
        channels.perform(Process::Tracker, step.effects);
        let tracker_asks = Some(step.request);
        let step = fetcher.start();
        channels.perform(Process::Fetcher, step.effects);
        let fetcher_asks = Some(step.request);
        Downstream { loader, tracker, fetcher, loader_asks, tracker_asks, fetcher_asks, torn: 0 }
    }

    fn groups_held(&self) -> usize {
        self.loader.current.iter().count() + self.tracker.pending.len()
            + self.fetcher.current.iter().count()
    }

    fn stopped(&self) -> bool {
        matches!(self.loader_asks, Some(LoaderRequest::Exit))
            && matches!(self.tracker_asks, Some(TrackerRequest::Exit))
            && matches!(self.fetcher_asks, Some(FetcherRequest::Exit))
    }

    /// Lets each stage take one step if its request can be answered.
    fn turn(&mut self, channels: &mut Channels<K>, dpus: &mut Dpus, mapper_stopped: bool) -> bool {
        let mut moved = false;
        let reply = match self.loader_asks.take() {
            Some(LoaderRequest::NextTransfer) => match channels.transfers.pop_front() {
                Some(transfer) => Some(LoaderReply::Transfer(Some(transfer))),
                None if mapper_stopped => Some(LoaderReply::Transfer(None)),
                None => {
                    self.loader_asks = Some(LoaderRequest::NextTransfer);
                    None
                },
            },
            Some(LoaderRequest::CopyToMemory(transfer)) => {
                let done = dpus.copy_to_memory(transfer);
                if done.is_err() {
                    self.torn += 1;
                }
                Some(LoaderReply::Done(done))
            },
            Some(LoaderRequest::Boot(dpu)) => {
                let done = dpus.boot(dpu);
                if done.is_err() {
                    self.torn += 1;
                }
                Some(LoaderReply::Done(done))
            },
            Some(LoaderRequest::Exit) => {
                self.loader_asks = Some(LoaderRequest::Exit);
                None
            },
            None => None,
        };
        if let Some(reply) = reply {
            let step = self.loader.resume(reply);
            channels.perform(Process::Loader, step.effects);
            self.loader_asks = Some(step.request);
            moved = true;
        }
        let loader_stopped = matches!(self.loader_asks, Some(LoaderRequest::Exit));
        let reply = match self.tracker_asks.take() {
            Some(TrackerRequest::NextJob) => match channels.jobs.pop_front() {
                Some(job) => Some(TrackerReply::Job(Some(job))),
                None if loader_stopped => Some(TrackerReply::Closed),
                None => Some(TrackerReply::Job(None)),
            },
            Some(TrackerRequest::Status(dpu)) => {
                let before = self.tracker.pending.len();
                let status = dpus.fetch_status(dpu);
                let reply = TrackerReply::Status(status);
                let step = self.tracker.resume(reply);
                let dropped = before > self.tracker.pending.len()
                    && !step.effects.iter().any(|e| matches!(e, Effect::Finished(_)));
                if dropped {
                    self.torn += 1;
                }
                channels.perform(Process::Tracker, step.effects);
                self.tracker_asks = Some(step.request);
                moved = true;
                None
            },
            Some(TrackerRequest::Sleep(_)) => Some(TrackerReply::Woken),
            Some(TrackerRequest::Exit) => {
                self.tracker_asks = Some(TrackerRequest::Exit);
                None
            },
            None => None,
        };
        if let Some(reply) = reply {
            let progress = !matches!(reply, TrackerReply::Job(None));
            let step = self.tracker.resume(reply);
            channels.perform(Process::Tracker, step.effects);
            self.tracker_asks = Some(step.request);
            moved = moved || progress || !self.tracker.pending.is_empty();
        }
        let tracker_stopped = matches!(self.tracker_asks, Some(TrackerRequest::Exit));
        let reply = match self.fetcher_asks.take() {
            Some(FetcherRequest::NextJob) => match channels.finished.pop_front() {
                Some(job) => Some(FetcherReply::Job(Some(job))),
                None if tracker_stopped => Some(FetcherReply::Job(None)),
                None => {
                    self.fetcher_asks = Some(FetcherRequest::NextJob);
                    None
                },
            },
            Some(FetcherRequest::CopyFromMemory(transfer)) => {
                let copied = dpus.copy_from_memory(transfer);
                if copied.is_err() {
                    self.torn += 1;
                }
                Some(FetcherReply::Copied(copied))
            },
            Some(FetcherRequest::Exit) => {
                self.fetcher_asks = Some(FetcherRequest::Exit);
                None
            },
            None => None,
        };
        if let Some(reply) = reply {
            let step = self.fetcher.resume(reply);
            channels.perform(Process::Fetcher, step.effects);
            self.fetcher_asks = Some(step.request);
            moved = true;
        }
        moved
    }
}

/// What a run of a pipeline has come to.
struct Run<K> {
    outputs: Vec<OutputResult<K>>,
    events: Vec<(Process, Event)>,
    batches: Vec<(u32, usize)>,
    torn: usize,
}

/// Runs a pipeline of the simple model on `items` until every stage has
/// stopped; the initializer sees the shutdown flag set after `shutdown_after`
/// items.
fn run_simple(
    groups: Vec<DpuGroup>,
    items: Vec<MemoryTransfers<u32>>,
    dpus: &mut Dpus,
    shutdown_after: usize,
) -> Run<u32> {
    let nr_of_groups = groups.len();
    let monitoring = EventMonitor::new();
    let mut channels: Channels<u32> = Channels::new();
    let mut items: VecDeque<MemoryTransfers<u32>> = items.into_iter().collect();
    let mut inputs: VecDeque<MemoryTransfers<u32>> = VecDeque::new();
    let mut pulled: Option<MemoryTransfers<u32>> = None;
    let mut forwarded = 0;
    let mut initializer = InputInitializer::new(monitoring);
    let step = initializer.start();
    for event in step.events {
        channels.events.push((Process::Initializer, event));
    }
    let mut initializer_asks = step.request;
    let mut mapper = SimpleMapper::new(groups, monitoring);
    let step = mapper.start();
    channels.perform(Process::Mapper, step.effects);
    let mut mapper_asks = step.request;
    let mut downstream = Downstream::start(&mut channels);
    let mut turns = 0;
    loop {
        turns += 1;
        assert!(turns < 100_000, "the pipeline does not come to an end");
        let reply = match initializer_asks {
            InitializerRequest::ShutdownFlag => Some(InitializerReply::Flag(forwarded >= shutdown_after)),
            InitializerRequest::NextItem => {
                pulled = items.pop_front();
                Some(InitializerReply::Item(pulled.is_some()))
            },
            InitializerRequest::Forward => {
                inputs.push_back(pulled.take().unwrap());
                forwarded += 1;
                Some(InitializerReply::Forwarded(true))
            },
            InitializerRequest::Exit => None,
        };
        if let Some(reply) = reply {
            let step = initializer.resume(reply);
            for event in step.events {
                channels.events.push((Process::Initializer, event));
            }
            initializer_asks = step.request;
        }
        let reply = match mapper_asks {
            MapperRequest::NextInput => match inputs.pop_front() {
                Some(item) => Some(SimpleReply::Input(Some(item))),
                None if initializer_asks == InitializerRequest::Exit => Some(SimpleReply::Input(None)),
                None => None,
            },
            MapperRequest::FreeGroup => match channels.free.pop_front() {
                Some(group) => Some(SimpleReply::Group(Some(group))),
                None if downstream.stopped() => Some(SimpleReply::Group(None)),
                None => None,
            },
            MapperRequest::SpareGroup => Some(SimpleReply::Group(channels.free.pop_front())),
            MapperRequest::Exit => None,
        };
        if let Some(reply) = reply {
            let step = mapper.resume(reply);
            channels.perform(Process::Mapper, step.effects);
            mapper_asks = step.request;
        }
        downstream.turn(&mut channels, dpus, mapper_asks == MapperRequest::Exit);
        let held = mapper.groups.len() + mapper.current.iter().count() + channels.transfers.len()
            + channels.jobs.len() + channels.finished.len() + channels.free.len()
            + downstream.groups_held() + downstream.torn;
        assert_eq!(held, nr_of_groups);
        if mapper_asks == MapperRequest::Exit && downstream.stopped() {
            break;
        }
    }
    Run {
        outputs: channels.outputs,
        events: channels.events,
        batches: channels.batches,
        torn: downstream.torn,
    }
}

/// Runs a pipeline of the persistent model on `fragments` and `items` until
/// every stage has stopped.
fn run_persistent(
    groups: Vec<DpuGroup>,
    fragments: Vec<(u32, InputMemoryTransfer)>,
    items: Vec<(u32, MemoryTransfers<u32>)>,
    dpus: &mut Dpus,
) -> Run<u32> {
    let monitoring = EventMonitor::new();
    let mut channels: Channels<u32> = Channels::new();
    let mut fragments: VecDeque<(u32, InputMemoryTransfer)> = fragments.into_iter().collect();
    let mut inputs: VecDeque<(u32, MemoryTransfers<u32>)> = items.into_iter().collect();
    let mut mapper: PersistentMapper<u32, u32> = PersistentMapper::new(groups, monitoring);
    let step = mapper.start();
    channels.perform(Process::Mapper, step.effects);
    let mut mapper_asks = Some(step.request);
    let mut downstream = Downstream::start(&mut channels);
    let mut turns = 0;
    loop {
        turns += 1;
        assert!(turns < 100_000, "the pipeline does not come to an end");
        let reply = match mapper_asks.take() {
            Some(PersistentRequest::NextFragment) => Some(PersistentReply::Fragment(fragments.pop_front())),
            Some(PersistentRequest::CopyToMemory(transfer)) => {
                Some(PersistentReply::Copied(dpus.copy_to_memory(transfer)))
            },
            Some(PersistentRequest::NextInput) => Some(PersistentReply::Input(inputs.pop_front())),
            Some(PersistentRequest::FreeGroup) => match channels.free.pop_front() {
                Some(group) => Some(PersistentReply::Group(Some(group))),
                None if downstream.stopped() => Some(PersistentReply::Group(None)),
                None => {
                    mapper_asks = Some(PersistentRequest::FreeGroup);
                    None
                },
            },
            Some(PersistentRequest::SpareGroup) => Some(PersistentReply::Group(channels.free.pop_front())),
            Some(PersistentRequest::Exit) => {
                mapper_asks = Some(PersistentRequest::Exit);
                None
            },
            None => None,
        };
        if let Some(reply) = reply {
            let step = mapper.resume(reply);
            channels.perform(Process::Mapper, step.effects);
            mapper_asks = Some(step.request);
        }
        let mapper_stopped = matches!(mapper_asks, Some(PersistentRequest::Exit));
        downstream.turn(&mut channels, dpus, mapper_stopped);
        if mapper_stopped && downstream.stopped() {
            break;
        }
    }
    Run {
        outputs: channels.outputs,
        events: channels.events,
        batches: channels.batches,
        torn: downstream.torn,
    }
}

fn item(key: u32, payload: [u8; 2]) -> MemoryTransfers<u32> {
    MemoryTransfers {
        inputs: vec![InputMemoryTransfer::from_u8_vec(0, payload.to_vec())],
        output: OutputMemoryTransfer { offset: 4, length: 2 },
        key,
    }
}

fn query(key: u32, fragment: u32) -> (u32, MemoryTransfers<u32>) {
    (
        fragment,
        MemoryTransfers {
            inputs: vec![InputMemoryTransfer::from_u8_vec(0, vec![key as u8, 0])],
            output: OutputMemoryTransfer { offset: 4, length: 6 },
            key,
        },
    )
}

fn fragment(id: u32, mark: u8) -> (u32, InputMemoryTransfer) {
    (id, InputMemoryTransfer::from_u8_vec(8, vec![mark]))
}

fn successes(outputs: &Vec<OutputResult<u32>>) -> Vec<(u32, Vec<u8>)> {
    let mut results: Vec<(u32, Vec<u8>)> = Vec::new();
    for output in outputs {
        if let Ok((key, bytes)) = output {
            results.push((*key, bytes.clone()));
        }
    }
    results
}

/// Checks that the events of `process` open and close their brackets in
/// order, and that none is left open.
fn assert_bracketed(events: &Vec<(Process, Event)>, process: Process) {
    let mut open: Vec<(u8, u32)> = Vec::new();
    for (reporter, event) in events {
        if *reporter != process {
            continue;
        }
        let (opens, bracket) = match event {
            Event::ProcessBegin => (true, (0, 0)),
            Event::ProcessEnd => (false, (0, 0)),
            Event::GroupSearchBegin => (true, (1, 0)),
            Event::GroupSearchEnd(_) => (false, (1, 0)),
            Event::GroupLoadingBegin(id) => (true, (2, *id)),
            Event::GroupLoadingEnd(id) => (false, (2, *id)),
            Event::JobExecutionTrackingBegin(id) => (true, (3, *id)),
            Event::JobExecutionTrackingEnd(id) => (false, (3, *id)),
            Event::OutputFetchingBegin(id) => (true, (4, *id)),
            Event::OutputFetchingEnd(id) => (false, (4, *id)),
            _ => continue,
        };
        if opens {
            assert!(!open.contains(&bracket), "{:?} opened twice", event);
            open.push(bracket);
        } else {
            let at = open.iter().position(|b| *b == bracket);
            assert!(at.is_some(), "{:?} closes what is not open", event);
            open.remove(at.unwrap());
        }
    }
    assert!(open.is_empty(), "brackets left open: {:?}", open);
}

fn assert_all_bracketed(events: &Vec<(Process, Event)>) {
    assert_bracketed(events, Process::Initializer);
    assert_bracketed(events, Process::Mapper);
    assert_bracketed(events, Process::Loader);
    assert_bracketed(events, Process::Tracker);
    assert_bracketed(events, Process::Fetcher);
}

#[test]
fn simple_model_on_a_single_dpu_answers_every_input() {
    let groups = create_groups_from(GroupPolicy::Slice, 1, 1, 1);
    let mut dpus = Dpus::new();
    let items = vec![item(0, [1, 2]), item(1, [3, 4]), item(2, [5, 6])];
    let run = run_simple(groups, items, &mut dpus, usize::MAX);
    let mut results = successes(&run.outputs);
    results.sort();
    assert_eq!(results, vec![(0, vec![3, 4]), (1, vec![5, 6]), (2, vec![7, 8])]);
    assert_eq!(run.outputs.len(), 3);
    assert_eq!(run.batches, vec![(0, 1), (0, 1), (0, 1)]);
    assert_eq!(run.torn, 0);
    assert_all_bracketed(&run.events);
}

#[test]
fn simple_model_forwards_a_partial_last_batch() {
    let groups = create_groups_from(GroupPolicy::Slice, 1, 2, 1);
    assert_eq!(groups.len(), 1);
    assert_eq!(groups[0].dpus.len(), 2);
    let mut dpus = Dpus::new();
    let items = vec![item(10, [1, 1]), item(11, [2, 2]), item(12, [3, 3])];
    let run = run_simple(groups, items, &mut dpus, usize::MAX);
    assert_eq!(run.batches, vec![(0, 2), (0, 1)]);
    let mut results = successes(&run.outputs);
    results.sort();
    assert_eq!(results, vec![(10, vec![3, 3]), (11, vec![4, 4]), (12, vec![5, 5])]);
    assert_eq!(run.outputs.len(), 3);
    assert_all_bracketed(&run.events);
}

#[test]
fn simple_model_with_one_group_per_dpu_uses_every_dpu() {
    let groups = create_groups_from(GroupPolicy::Dpu, 1, 2, 2);
    assert_eq!(groups.len(), 4);
    let mut dpus = Dpus::new();
    dpus.polls_until_idle = 3;
    let mut items = Vec::new();
    for key in 0..9u32 {
        items.push(item(key, [key as u8, 100]));
    }
    let run = run_simple(groups, items, &mut dpus, usize::MAX);
    let mut results = successes(&run.outputs);
    results.sort();
    let mut expected = Vec::new();
    for key in 0..9u32 {
        expected.push((key, vec![key as u8 + 2, 102]));
    }
    assert_eq!(results, expected);
    let mut booted = dpus.boots.clone();
    booted.sort();
    booted.dedup();
    assert_eq!(booted.len(), 4);
    assert_all_bracketed(&run.events);
}

#[test]
fn a_faulting_dpu_yields_one_execution_error() {
    let groups = create_groups_from(GroupPolicy::Slice, 1, 1, 2);
    let mut dpus = Dpus::new();
    let dpu0 = DpuId::new(0, 0, 0);
    dpus.faulting.push(dpu0);
    dpus.polls_until_idle = 0;
    let items = vec![item(0, [1, 2]), item(1, [3, 4]), item(2, [5, 6])];
    let run = run_simple(groups, items, &mut dpus, usize::MAX);
    let errors: Vec<&OutputResult<u32>> = run.outputs.iter().filter(|o| o.is_err()).collect();
    assert_eq!(errors.len(), 1);
    assert_eq!(*errors[0], Err(PipelineError::ExecutionError(dpu0)));
    assert_eq!(run.torn, 1);
    // The group of the faulting DPU is gone; the other group serves the rest.
    let mut results = successes(&run.outputs);
    results.sort();
    assert_eq!(results.len(), 2);
    assert_all_bracketed(&run.events);
}

#[test]
fn a_failing_write_yields_one_infrastructure_error_for_the_batch() {
    let groups = create_groups_from(GroupPolicy::Slice, 1, 2, 2);
    let mut dpus = Dpus::new();
    dpus.failing_copies_to = 1;
    let items = vec![item(0, [1, 2]), item(1, [3, 4]), item(2, [5, 6]), item(3, [7, 8])];
    let run = run_simple(groups, items, &mut dpus, usize::MAX);
    let errors: Vec<&OutputResult<u32>> = run.outputs.iter().filter(|o| o.is_err()).collect();
    assert_eq!(errors.len(), 1);
    assert_eq!(*errors[0], Err(PipelineError::InfrastructureError(Dpus::failure())));
    assert_eq!(successes(&run.outputs).len(), 2);
    assert_eq!(run.torn, 1);
    assert_all_bracketed(&run.events);
}

#[test]
fn a_failing_boot_stops_the_booting_of_the_batch() {
    let groups = create_groups_from(GroupPolicy::Slice, 1, 2, 1);
    let mut dpus = Dpus::new();
    dpus.failing_boots = 1;
    let items = vec![item(0, [1, 2]), item(1, [3, 4])];
    let run = run_simple(groups, items, &mut dpus, usize::MAX);
    assert_eq!(run.outputs, vec![Err(PipelineError::InfrastructureError(Dpus::failure()))]);
    assert!(dpus.boots.is_empty());
    assert_eq!(run.torn, 1);
    assert_all_bracketed(&run.events);
}

#[test]
fn a_failing_read_yields_one_infrastructure_error_and_keeps_the_group() {
    let groups = create_groups_from(GroupPolicy::Slice, 1, 2, 2);
    let mut dpus = Dpus::new();
    dpus.failing_copies_from = 1;
    let items = vec![item(0, [1, 2]), item(1, [3, 4]), item(2, [5, 6]), item(3, [7, 8])];
    let run = run_simple(groups, items, &mut dpus, usize::MAX);
    let errors: Vec<&OutputResult<u32>> = run.outputs.iter().filter(|o| o.is_err()).collect();
    assert_eq!(errors.len(), 1);
    assert_eq!(successes(&run.outputs).len(), 2);
    assert_eq!(run.torn, 1);
    assert_all_bracketed(&run.events);
}

#[test]
fn a_failing_poll_yields_one_infrastructure_error() {
    let groups = create_groups_from(GroupPolicy::Slice, 1, 1, 1);
    let mut dpus = Dpus::new();
    dpus.failing_polls = 1;
    let items = vec![item(0, [1, 2])];
    let run = run_simple(groups, items, &mut dpus, usize::MAX);
    assert_eq!(run.outputs, vec![Err(PipelineError::InfrastructureError(Dpus::failure()))]);
    assert_all_bracketed(&run.events);
}

#[test]
fn shutdown_stops_pulling_and_every_stage_comes_to_an_end() {
    let groups = create_groups_from(GroupPolicy::Slice, 1, 1, 1);
    let mut dpus = Dpus::new();
    let items = vec![item(0, [1, 2]), item(1, [3, 4]), item(2, [5, 6])];
    let run = run_simple(groups, items, &mut dpus, 1);
    assert_eq!(successes(&run.outputs), vec![(0, vec![3, 4])]);
    let new_inputs = run.events.iter().filter(|(_, e)| *e == Event::NewInput).count();
    assert_eq!(new_inputs, 1);
    assert_all_bracketed(&run.events);
}

#[test]
fn persistent_model_answers_the_queries_of_a_fragment_in_order() {
    let groups = create_groups_from(GroupPolicy::Dpu, 1, 1, 2);
    let mut dpus = Dpus::new();
    let fragments = vec![fragment(100, 0xA0), fragment(101, 0xB0)];
    let items = vec![query(0, 100), query(1, 101), query(2, 100), query(3, 101), query(4, 100)];
    let run = run_persistent(groups, fragments, items, &mut dpus);
    assert_eq!(run.outputs.len(), 5);
    let results = successes(&run.outputs);
    assert_eq!(results.len(), 5);
    let first: Vec<u32> = results.iter().filter(|(_, b)| b[5] == 0xA0).map(|(k, _)| *k).collect();
    let second: Vec<u32> = results.iter().filter(|(_, b)| b[5] == 0xB0).map(|(k, _)| *k).collect();
    assert_eq!(first, vec![0, 2, 4]);
    assert_eq!(second, vec![1, 3]);
    for (key, bytes) in results {
        assert_eq!(bytes[0], key as u8 + 2);
    }
    assert_all_bracketed(&run.events);
}

#[test]
fn persistent_model_keeps_the_order_within_a_shared_group() {
    let groups = create_groups_from(GroupPolicy::Slice, 1, 2, 1);
    let mut dpus = Dpus::new();
    dpus.polls_until_idle = 2;
    let fragments = vec![fragment(7, 0x70), fragment(8, 0x80)];
    let items = vec![
        query(0, 7),
        query(1, 7),
        query(2, 7),
        query(3, 8),
        query(4, 7),
        query(5, 8),
        query(6, 8),
    ];
    let run = run_persistent(groups, fragments, items, &mut dpus);
    let results = successes(&run.outputs);
    assert_eq!(results.len(), 7);
    let first: Vec<u32> = results.iter().filter(|(_, b)| b[5] == 0x70).map(|(k, _)| *k).collect();
    let second: Vec<u32> = results.iter().filter(|(_, b)| b[5] == 0x80).map(|(k, _)| *k).collect();
    assert_eq!(first, vec![0, 1, 2, 4]);
    assert_eq!(second, vec![3, 5, 6]);
    assert_all_bracketed(&run.events);
}

#[test]
fn an_unknown_fragment_yields_one_error_and_the_rest_goes_on() {
    let groups = create_groups_from(GroupPolicy::Dpu, 1, 1, 2);
    let mut dpus = Dpus::new();
    let fragments = vec![fragment(100, 1), fragment(101, 2)];
    let items = vec![query(0, 100), query(1, 999), query(2, 101), query(3, 100)];
    let run = run_persistent(groups, fragments, items, &mut dpus);
    let errors: Vec<&OutputResult<u32>> = run.outputs.iter().filter(|o| o.is_err()).collect();
    assert_eq!(errors.len(), 1);
    assert_eq!(*errors[0], Err(PipelineError::UnknownFragmentId));
    let mut keys: Vec<u32> = successes(&run.outputs).iter().map(|(k, _)| *k).collect();
    keys.sort();
    assert_eq!(keys, vec![0, 2, 3]);
    assert_all_bracketed(&run.events);
}

#[test]
fn persistent_model_leaves_groups_without_fragments_alone() {
    let groups = create_groups_from(GroupPolicy::Dpu, 1, 2, 2);
    let mut dpus = Dpus::new();
    let fragments = vec![fragment(1, 0x11)];
    let items = vec![query(0, 1), query(1, 1), query(2, 1)];
    let run = run_persistent(groups, fragments, items, &mut dpus);
    assert_eq!(successes(&run.outputs).len(), 3);
    let mut booted = dpus.boots.clone();
    booted.dedup();
    assert_eq!(booted, vec![DpuId::new(0, 0, 0)]);
    assert_eq!(run.batches, vec![(0, 1), (0, 1), (0, 1)]);
}

#[test]
fn persistent_model_reports_a_failed_loading_of_fragments_and_stops() {
    let groups = create_groups_from(GroupPolicy::Dpu, 1, 1, 2);
    let mut dpus = Dpus::new();
    dpus.failing_copies_to = 1;
    let fragments = vec![fragment(1, 0x11)];
    let items = vec![query(0, 1)];
    let run = run_persistent(groups, fragments, items, &mut dpus);
    assert_eq!(run.outputs, vec![Err(PipelineError::InfrastructureError(Dpus::failure()))]);
    assert_bracketed(&run.events, Process::Mapper);
}

#[test]
fn persistent_model_ships_a_sparse_group_when_the_input_ends() {
    let groups = create_groups_from(GroupPolicy::Slice, 1, 2, 1);
    let mut dpus = Dpus::new();
    let fragments = vec![fragment(7, 0x70), fragment(8, 0x80)];
    let items = vec![query(0, 7), query(1, 7)];
    let run = run_persistent(groups, fragments, items, &mut dpus);
    let results = successes(&run.outputs);
    let keys: Vec<u32> = results.iter().map(|(k, _)| *k).collect();
    assert_eq!(keys, vec![0, 1]);
    assert_eq!(run.batches, vec![(0, 1), (0, 1)]);
    // Only the DPU that holds the fragment is booted.
    assert_eq!(dpus.boots, vec![DpuId::new(0, 0, 0), DpuId::new(0, 0, 0)]);
    for (_, bytes) in results {
        assert_eq!(bytes[5], 0x70);
    }
}
