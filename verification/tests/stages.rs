use dpu_cluster_core::communication::Command;
use dpu_cluster_core::communication::RegisterRequest;
use dpu_cluster_core::communication::Request;
use dpu_cluster_core::cluster::Cluster;
use dpu_cluster_core::dpu::DpuId;
use dpu_cluster_core::driver::RunStatus;
use dpu_cluster_core::pipeline::monitoring::Event;
use dpu_cluster_core::pipeline::monitoring::EventMonitor;
use dpu_cluster_core::pipeline::monitoring::Process;
use dpu_cluster_core::pipeline::monitoring::Record;
use dpu_cluster_core::pipeline::monitoring::RecordPolicy;
use dpu_cluster_core::pipeline::pipeline::tracker_sleep_duration;
use dpu_cluster_core::pipeline::pipeline::Pipeline;
use dpu_cluster_core::pipeline::plan::Plan;
use dpu_cluster_core::pipeline::stages::fetcher::FetcherReply;
use dpu_cluster_core::pipeline::stages::fetcher::FetcherRequest;
use dpu_cluster_core::pipeline::stages::fetcher::OutputFetcher;
use dpu_cluster_core::pipeline::stages::initializer::InitializerReply;
use dpu_cluster_core::pipeline::stages::initializer::InitializerRequest;
use dpu_cluster_core::pipeline::stages::initializer::InputInitializer;
use dpu_cluster_core::pipeline::stages::loader::InputLoader;
use dpu_cluster_core::pipeline::stages::loader::LoaderReply;
use dpu_cluster_core::pipeline::stages::loader::LoaderRequest;
use dpu_cluster_core::pipeline::stages::mapper::MapperRequest;
use dpu_cluster_core::pipeline::stages::mapper::SimpleMapper;
use dpu_cluster_core::pipeline::stages::mapper::SimpleReply;
use dpu_cluster_core::pipeline::stages::persistent::PersistentMapper;
use dpu_cluster_core::pipeline::stages::tracker::ExecutionTracker;
use dpu_cluster_core::pipeline::stages::tracker::TrackerReply;
use dpu_cluster_core::pipeline::stages::tracker::TrackerRequest;
use dpu_cluster_core::pipeline::stages::DpuGroup;
use dpu_cluster_core::pipeline::stages::Effect;
use dpu_cluster_core::pipeline::transfer::InputMemoryTransfer;
use dpu_cluster_core::pipeline::transfer::MemoryTransfers;
use dpu_cluster_core::pipeline::transfer::OutputMemoryTransfer;
use dpu_cluster_core::pipeline::GroupPolicy;
use dpu_cluster_core::pipeline::PipelineError;
use dpu_cluster_core::program::Program;
use dpu_cluster_core::target::DpuTarget;
use dpu_cluster_core::target::DpuTopology;
use dpu_cluster_core::target::DpuType;

fn events<K>(effects: &Vec<Effect<K>>) -> Vec<Event> {
    let mut events = Vec::new();
    for effect in effects {
        if let Effect::Record(event) = effect {
            events.push(*event);
        }
    }
    events
}

fn group(id: u32, dpus: Vec<DpuId>) -> DpuGroup {
    DpuGroup { id, dpus: dpus.into_iter().map(|d| (d, true)).collect() }
}

fn item(key: u8) -> MemoryTransfers<u8> {
    MemoryTransfers {
        inputs: vec![InputMemoryTransfer::from_u8_vec(0, vec![key])],
        output: OutputMemoryTransfer { offset: 4, length: 1 },
        key,
    }
}

#[test]
fn a_monitor_records_only_when_told_to() {
    let mut monitor = EventMonitor::new();
    assert_eq!(monitor, EventMonitor::default());
    assert_eq!(monitor.record(Event::NewInput), None);
    monitor.set_policy(RecordPolicy::Stdout);
    monitor.set_process(Process::Loader);
    assert_eq!(
        monitor.record(Event::GroupLoadingBegin(3)),
        Some(Record { process: Process::Loader, event: Event::GroupLoadingBegin(3) })
    );
    assert_eq!(Process::default(), Process::Pipeline);
    assert_eq!(RecordPolicy::default(), RecordPolicy::Disabled);
}

#[test]
fn the_initializer_looks_at_the_shutdown_flag_before_each_pull() {
    let mut initializer = InputInitializer::new(EventMonitor::new());
    assert_eq!(initializer.monitoring.process, Process::Initializer);
    let step = initializer.start();
    assert_eq!(step.events, vec![Event::ProcessBegin]);
    assert_eq!(step.request, InitializerRequest::ShutdownFlag);
    let step = initializer.resume(InitializerReply::Flag(false));
    assert_eq!((step.events, step.request), (vec![], InitializerRequest::NextItem));
    let step = initializer.resume(InitializerReply::Item(true));
    assert_eq!((step.events, step.request), (vec![Event::NewInput], InitializerRequest::Forward));
    let step = initializer.resume(InitializerReply::Forwarded(true));
    assert_eq!((step.events, step.request), (vec![], InitializerRequest::ShutdownFlag));
    let step = initializer.resume(InitializerReply::Flag(true));
    assert_eq!((step.events, step.request), (vec![Event::ProcessEnd], InitializerRequest::Exit));
    let step = initializer.resume(InitializerReply::Flag(false));
    assert_eq!((step.events, step.request), (vec![], InitializerRequest::Exit));
}

#[test]
fn the_initializer_stops_when_the_items_run_out_or_the_mapper_is_gone() {
    let mut initializer = InputInitializer::new(EventMonitor::new());
    initializer.start();
    initializer.resume(InitializerReply::Flag(false));
    let step = initializer.resume(InitializerReply::Item(false));
    assert_eq!((step.events, step.request), (vec![Event::ProcessEnd], InitializerRequest::Exit));

    let mut initializer = InputInitializer::new(EventMonitor::new());
    initializer.start();
    initializer.resume(InitializerReply::Flag(false));
    initializer.resume(InitializerReply::Item(true));
    let step = initializer.resume(InitializerReply::Forwarded(false));
    assert_eq!((step.events, step.request), (vec![Event::ProcessEnd], InitializerRequest::Exit));

    let mut unstarted = InputInitializer::new(EventMonitor::new());
    let step = unstarted.resume(InitializerReply::Flag(false));
    assert_eq!((step.events, step.request), (vec![], InitializerRequest::Exit));
}

#[test]
fn the_simple_mapper_waits_for_a_group_when_its_pool_is_empty() {
    let a = DpuId::new(0, 0, 0);
    let mut mapper: SimpleMapper<u8> = SimpleMapper::new(vec![group(5, vec![a])], EventMonitor::new());
    let step = mapper.start();
    assert_eq!(events(&step.effects), vec![Event::ProcessBegin]);
    assert_eq!(step.request, MapperRequest::NextInput);
    let step = mapper.resume(SimpleReply::Input(Some(item(1))));
    assert_eq!(events(&step.effects), vec![Event::GroupSearchBegin, Event::GroupSearchEnd(5)]);
    assert!(matches!(step.effects.last(), Some(Effect::Transfer(t)) if t.0.id == 5 && t.2[0].0 == 1));
    assert_eq!(step.request, MapperRequest::NextInput);
    let step = mapper.resume(SimpleReply::Input(Some(item(2))));
    assert_eq!(events(&step.effects), vec![Event::GroupSearchBegin]);
    assert_eq!(step.request, MapperRequest::FreeGroup);
    let step = mapper.resume(SimpleReply::Group(Some(group(5, vec![a]))));
    assert!(step.effects.is_empty());
    assert_eq!(step.request, MapperRequest::SpareGroup);
    let step = mapper.resume(SimpleReply::Group(Some(group(6, vec![a]))));
    assert!(step.effects.is_empty());
    assert_eq!(step.request, MapperRequest::SpareGroup);
    assert_eq!(mapper.groups.len(), 1);
    let step = mapper.resume(SimpleReply::Group(None));
    assert_eq!(events(&step.effects), vec![Event::GroupSearchEnd(5)]);
    assert!(matches!(step.effects.last(), Some(Effect::Transfer(t)) if t.0.id == 5 && t.2[0].0 == 2));
    let step = mapper.resume(SimpleReply::Input(None));
    assert_eq!(events(&step.effects), vec![Event::ProcessEnd]);
    assert_eq!(step.request, MapperRequest::Exit);
}

#[test]
fn a_stage_that_is_told_of_a_broken_channel_stops() {
    let mut mapper: SimpleMapper<u8> = SimpleMapper::new(Vec::new(), EventMonitor::new());
    mapper.start();
    let step = mapper.resume(SimpleReply::Broken);
    assert_eq!(events(&step.effects), vec![Event::ProcessEnd]);
    assert_eq!(step.request, MapperRequest::Exit);
    let step = mapper.resume(SimpleReply::Input(Some(item(1))));
    assert!(step.effects.is_empty());
    assert_eq!(step.request, MapperRequest::Exit);

    let mut loader: InputLoader<u8> = InputLoader::new(EventMonitor::new());
    loader.start();
    let step = loader.resume(LoaderReply::Broken);
    assert_eq!(events(&step.effects), vec![Event::ProcessEnd]);
    assert!(matches!(step.request, LoaderRequest::Exit));

    let mut tracker: ExecutionTracker<u8> = ExecutionTracker::new(None, EventMonitor::new());
    tracker.start();
    let step = tracker.resume(TrackerReply::Broken);
    assert_eq!(events(&step.effects), vec![Event::ProcessEnd]);
    assert_eq!(step.request, TrackerRequest::Exit);

    let mut fetcher: OutputFetcher<u8> = OutputFetcher::new(EventMonitor::new());
    fetcher.start();
    let step = fetcher.resume(FetcherReply::Broken);
    assert_eq!(events(&step.effects), vec![Event::ProcessEnd]);
    assert!(matches!(step.request, FetcherRequest::Exit));
}

#[test]
fn the_loader_writes_one_matrix_for_each_position_in_the_input_lists() {
    let a = DpuId::new(0, 0, 0);
    let b = DpuId::new(0, 1, 0);
    let mut loader: InputLoader<u8> = InputLoader::new(EventMonitor::new());
    loader.start();
    let inputs = vec![
        vec![
            InputMemoryTransfer::from_u8_vec(0, vec![1]),
            InputMemoryTransfer::from_u8_vec(8, vec![2, 2]),
        ],
        vec![InputMemoryTransfer::from_u8_vec(4, vec![3])],
    ];
    let outputs = vec![
        (10u8, OutputMemoryTransfer { offset: 0, length: 1 }),
        (11u8, OutputMemoryTransfer { offset: 0, length: 1 }),
    ];
    let step = loader.resume(LoaderReply::Transfer(Some((group(9, vec![a, b]), inputs, outputs))));
    assert_eq!(events(&step.effects), vec![Event::GroupLoadingBegin(9)]);
    let first = match step.request {
        LoaderRequest::CopyToMemory(transfer) => transfer,
        other => panic!("{:?}", other),
    };
    assert_eq!(first.get(a).map(|e| (e.offset, e.reference.clone())), Some((0, vec![1])));
    assert_eq!(first.get(b).map(|e| (e.offset, e.reference.clone())), Some((4, vec![3])));
    let step = loader.resume(LoaderReply::Done(Ok(())));
    assert!(step.effects.is_empty());
    let second = match step.request {
        LoaderRequest::CopyToMemory(transfer) => transfer,
        other => panic!("{:?}", other),
    };
    assert_eq!(second.get(a).map(|e| (e.offset, e.reference.clone())), Some((8, vec![2, 2])));
    assert!(second.get(b).is_none());
    let step = loader.resume(LoaderReply::Done(Ok(())));
    assert!(matches!(step.request, LoaderRequest::Boot(dpu) if dpu == a));
    let step = loader.resume(LoaderReply::Done(Ok(())));
    assert!(matches!(step.request, LoaderRequest::Boot(dpu) if dpu == b));
    let step = loader.resume(LoaderReply::Done(Ok(())));
    assert_eq!(events(&step.effects), vec![Event::GroupLoadingEnd(9)]);
    assert!(matches!(step.effects.last(), Some(Effect::Job(job)) if job.0.id == 9 && job.1.len() == 2));
    assert!(matches!(step.request, LoaderRequest::NextTransfer));
    let step = loader.resume(LoaderReply::Transfer(None));
    assert_eq!(events(&step.effects), vec![Event::ProcessEnd]);
}

#[test]
fn the_tracker_merges_the_status_of_the_dpus_of_a_group() {
    let a = DpuId::new(0, 0, 0);
    let b = DpuId::new(0, 1, 0);
    let mut tracker: ExecutionTracker<u8> = ExecutionTracker::new(Some(10), EventMonitor::new());
    let step = tracker.start();
    assert_eq!(step.request, TrackerRequest::NextJob);
    let job = (group(4, vec![a, b]), vec![(1u8, OutputMemoryTransfer { offset: 0, length: 1 })]);
    let step = tracker.resume(TrackerReply::Job(Some(job)));
    assert_eq!(events(&step.effects), vec![Event::JobExecutionTrackingBegin(4)]);
    let step = tracker.resume(TrackerReply::Job(None));
    assert_eq!(step.request, TrackerRequest::Status(a));
    let step = tracker.resume(TrackerReply::Status(Ok(RunStatus::Idle)));
    assert_eq!(step.request, TrackerRequest::Status(b));
    let step = tracker.resume(TrackerReply::Status(Ok(RunStatus::Running)));
    assert!(step.effects.is_empty());
    assert_eq!(step.request, TrackerRequest::Sleep(10));
    assert_eq!(tracker.pending.len(), 1);
    let step = tracker.resume(TrackerReply::Woken);
    assert_eq!(step.request, TrackerRequest::NextJob);
    tracker.resume(TrackerReply::Closed);
    tracker.resume(TrackerReply::Status(Ok(RunStatus::Fault(vec![a]))));
    let step = tracker.resume(TrackerReply::Status(Ok(RunStatus::Fault(vec![b]))));
    assert_eq!(events(&step.effects), vec![Event::JobExecutionTrackingEnd(4)]);
    let errors: Vec<PipelineError> = step
        .effects
        .iter()
        .filter_map(|e| match e {
            Effect::Output(Err(error)) => Some(*error),
            _ => None,
        })
        .collect();
    assert_eq!(errors, vec![PipelineError::ExecutionError(a), PipelineError::ExecutionError(b)]);
    assert!(tracker.pending.is_empty());
    let step = tracker.resume(TrackerReply::Woken);
    assert_eq!(step.request, TrackerRequest::NextJob);
    let step = tracker.resume(TrackerReply::Closed);
    assert_eq!(events(&step.effects), vec![Event::ProcessEnd]);
    assert_eq!(step.request, TrackerRequest::Exit);
}

#[test]
fn the_fetcher_gives_the_group_back_before_it_delivers() {
    let a = DpuId::new(0, 0, 0);
    let b = DpuId::new(1, 0, 0);
    let mut fetcher: OutputFetcher<u8> = OutputFetcher::new(EventMonitor::new());
    fetcher.start();
    let job = (
        group(2, vec![a, b]),
        vec![
            (7u8, OutputMemoryTransfer { offset: 4, length: 2 }),
            (8u8, OutputMemoryTransfer { offset: 6, length: 3 }),
        ],
    );
    let step = fetcher.resume(FetcherReply::Job(Some(job)));
    assert_eq!(
        events(&step.effects),
        vec![
            Event::OutputFetchingBegin(2),
            Event::OutputFetchingInfo { dpu: a, offset: 4, length: 2 },
            Event::OutputFetchingInfo { dpu: b, offset: 6, length: 3 },
        ]
    );
    let mut transfer = match step.request {
        FetcherRequest::CopyFromMemory(transfer) => transfer,
        other => panic!("{:?}", other),
    };
    assert_eq!(transfer.get(a).map(|e| (e.offset, e.reference.clone())), Some((4, vec![0, 0])));
    assert_eq!(transfer.get(b).map(|e| (e.offset, e.reference.clone())), Some((6, vec![0, 0, 0])));
    for (_, rank) in transfer.0.iter_mut() {
        for (dpu, entry) in rank.0.iter_mut() {
            for byte in entry.reference.iter_mut() {
                *byte = dpu.rank + 1;
            }
        }
    }
    let step = fetcher.resume(FetcherReply::Copied(Ok(transfer)));
    assert_eq!(step.effects.len(), 4);
    assert!(matches!(&step.effects[0], Effect::Release(group) if group.id == 2));
    assert!(matches!(&step.effects[1], Effect::Output(Ok((7, bytes))) if *bytes == vec![1, 1]));
    assert!(matches!(&step.effects[2], Effect::Output(Ok((8, bytes))) if *bytes == vec![2, 2, 2]));
    assert!(matches!(&step.effects[3], Effect::Record(Event::OutputFetchingEnd(2))));
    assert!(matches!(step.request, FetcherRequest::NextJob));
}

#[test]
fn a_pipeline_is_set_up_for_its_cluster() {
    let topology = DpuTopology { nr_of_control_interfaces: 3, nr_of_dpus_per_control_interface: 2 };
    let cluster = Cluster::new(DpuTarget::for_hardware_implementation(), 2, topology);
    let mut monitoring = EventMonitor::new();
    monitoring.set_policy(RecordPolicy::Stdout);
    let simple: Pipeline<SimpleMapper<u8>, u8> = Pipeline::simple(&cluster, GroupPolicy::Dpu, monitoring);
    assert_eq!(simple.input_capacity, 6);
    assert_eq!(simple.output_capacity, 6);
    assert_eq!(simple.input_mapper.groups.len(), 12);
    assert_eq!(simple.execution_tracker.sleep, Some(10));
    assert_eq!(simple.input_loader.monitoring.process, Process::Loader);
    assert_eq!(simple.output_fetcher.monitoring.policy, RecordPolicy::Stdout);
    let persistent: Pipeline<PersistentMapper<u8, u64>, u8> =
        Pipeline::persistent(&cluster, GroupPolicy::Slice, monitoring);
    assert_eq!(persistent.input_mapper.groups.len(), 4);
    assert_eq!(persistent.input_mapper.monitoring.process, Process::Mapper);
    assert_eq!(tracker_sleep_duration(DpuType::FunctionalSimulator), None);
    assert_eq!(tracker_sleep_duration(DpuType::BackupSpi), Some(10));
}

#[test]
fn a_plan_without_a_cluster_cannot_be_built() {
    let plan = Plan::from(vec![1u8, 2, 3].into_iter()).for_simple_model(|x: u8| x);
    assert_eq!(plan.build_init(), Err(PipelineError::UndefinedCluster));
    assert!(matches!(plan.build(), Err(PipelineError::UndefinedCluster)));
}

#[test]
fn a_plan_reports_the_shape_of_the_cluster_and_the_size_of_the_program() {
    let topology = DpuTopology { nr_of_control_interfaces: 1, nr_of_dpus_per_control_interface: 1 };
    let cluster = Cluster::new(DpuTarget::for_functional_simulator(), 1, topology);
    let program = Program::new(vec![0u64; 10], vec![0u32; 3], None);
    let plan = Plan::from(vec![1u8].into_iter())
        .driving(cluster)
        .grouped_by(GroupPolicy::Dpu)
        .monitored_by(RecordPolicy::Stdout)
        .for_persistent_model(|x: u8| x, vec![2u8].into_iter());
    assert_eq!(
        plan.build_init(),
        Ok(vec![Event::Initialization { nr_ranks: 1, nr_slices: 1, nr_dpus: 1 }])
    );
    let plan = plan.running(&program);
    assert_eq!(
        plan.build_init(),
        Ok(vec![
            Event::Initialization { nr_ranks: 1, nr_slices: 1, nr_dpus: 1 },
            Event::LoadingProgramBegin { nr_instructions: 10, nr_data_bytes: 12 },
        ])
    );
    let (_, cluster, _, policy, monitoring) = plan.build().ok().unwrap();
    assert_eq!(cluster.topology(), (1, 1, 1));
    assert_eq!(policy, GroupPolicy::Dpu);
    assert_eq!(monitoring.policy, RecordPolicy::Stdout);
}

#[test]
fn a_register_request_stands_for_the_register_command() {
    assert_eq!(RegisterRequest.command(), Command::Register);
}
