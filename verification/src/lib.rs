//! Task-graph runtime: task graphs, dependency analysis, scheduling
//! policies and the decision logic of the executor.

pub mod advanced;
pub mod text;
pub mod task;
pub mod condition;
pub mod taskflow;

pub use advanced::{CancellationToken, Priority, TaskMetadata};
pub mod dynamic_priority;
pub use dynamic_priority::DynamicPriorityScheduler;
pub mod scheduler;
pub use scheduler::{FifoScheduler, PriorityScheduler, RoundRobinScheduler, Scheduler};
pub mod cycle_detection;
pub use cycle_detection::{CycleDetectionResult, CycleDetector};
pub mod executor;
pub use executor::{ExecutionState, Executor, WorkerStep};
pub mod subflow;
pub use subflow::Subflow;
pub use taskflow::Taskflow;
pub use task::{Task, TaskHandle};
pub use condition::{BranchId, ConditionalHandle, Loop};
pub mod composition;
pub use composition::{ComposedInstance, ComposedWork, Composition, CompositionBuilder, ModuleTask, TaskflowComposable};
pub mod debug;
pub use debug::{DebugLogger, LogEntry, LogLevel};
pub mod profiler;
pub use profiler::{ExecutionProfile, Profiler, TaskStats};
pub mod monitoring;
pub use monitoring::PerformanceMetrics;
pub mod pipeline;
pub use pipeline::{ConcurrentPipeline, StageType, Token};
pub mod numa;
pub use numa::{NumaNode, NumaPinning, NumaTopology};
pub mod parse;
pub mod hwloc_topology;
pub use hwloc_topology::{AffinityStrategy, BindError, CacheInfo, HwlocWorkerAffinity, PackageInfo, SysfsBackend, TopologyProvider};
pub mod gpu;
pub mod gpu_backend;
pub use gpu::GpuTaskConfig;
pub use gpu_backend::{BackendKind, GpuError};
pub mod gpu_stream;
pub use gpu_stream::{GpuStream, StreamAssignment, StreamGuard, StreamLoad, StreamPool, StreamSet};
pub use dynamic_priority::{EscalationPolicy, PriorityHandle, SharedDynamicScheduler};
pub mod preemptive;
pub use preemptive::{Preempted, PreemptiveCancellationToken};
pub mod dashboard;
pub mod visualization;
pub mod flamegraph;
pub mod regression;
pub mod algorithms;
pub mod metrics;
pub mod baseline_json;
pub mod typed_pipeline;
pub use metrics::Metrics;
pub use dashboard::DashboardConfig;
pub use typed_pipeline::{PipelineBuilder, TypeSafePipeline};
