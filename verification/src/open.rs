//! How a node starts: what is built in which order, what speaks against
//! starting, and what runs once it has started.

use crate::batch::WriterConfig;
use crate::coord::designated::WRITER_ADVERTISEMENT_KEY;
use crate::coord::WriterGrant;
use crate::error::{EngineError, ErrorView};
use crate::gc::GcConfig;
use crate::keys::PROBE_PREFIX;
use crate::node::{tuning_fault, NodeRole, NodeRoles, NodeTuning, ProgressState};
use crate::text::{
    concat2, concat4, contains_text, signed_decimal, signed_decimal_text, text_is, views,
};
use crate::tuning::{
    hours_us, writer_config, GcTuning, LogTuning, PathExpandLimits, QueryLimits, QueryTuning,
    StorageTuning,
};
use crate::types::LogPosition;
use vstd::prelude::*;

verus! {

/// Whether what is written survives the process.
#[derive(Clone, Copy, Debug, PartialEq, Eq, Structural)]
pub enum Durability {
    Durable,
    Volatile,
    /// Nothing is declared.
    Unknown,
}

/// A log that survives must not stand over blocks that may not: it is cut where
/// blocks cover it.
pub fn check_durability(log: Durability, store: Durability) -> (r: Result<(), EngineError>)
    ensures
        match r {
            Ok(()) => log != Durability::Durable || store == Durability::Durable,
            Err(e) => log == Durability::Durable && store != Durability::Durable && e@
                == ErrorView::VolatileBlockStore,
        },
{
    match log {
        Durability::Durable => match store {
            Durability::Durable => Ok(()),
            _ => Err(EngineError::VolatileBlockStore),
        },
        _ => Ok(()),
    }
}

/// The sections of the configuration that tune something.
pub struct Tunings {
    pub log: LogTuning,
    pub storage: StorageTuning,
    pub query: QueryTuning,
    pub gc: GcTuning,
    pub node: NodeTuning,
}

/// The tuning of a node, and what it does.
pub struct Settings {
    pub roles: NodeRoles,
    pub log: LogTuning,
    pub storage: StorageTuning,
    pub query: QueryTuning,
    pub gc: GcTuning,
    pub node: NodeTuning,
}

/// What has been done.
pub enum OpenEvent {
    StorageBuilt(Durability),
    LogBuilt(Durability),
    TiersRead(Vec<String>),
    TierBuilt,
    ClockBuilt,
    TuningsRead(Tunings),
    /// The coordinator, with the milliseconds between its heartbeats.
    CoordinatorBuilt(u64),
    Granted(WriterGrant),
    Recovered,
    EpochStarted,
}

/// What is to be done next.
pub enum OpenAction {
    BuildStorage(String),
    BuildLog(String),
    ReadTiers,
    BuildTier(String),
    BuildClock(String),
    ReadTunings,
    BuildCoordinator(String),
    /// Ask the coordinator; this may wait.
    Acquire,
    Recover,
    StartEpoch(u16),
    Assemble,
}

pub enum OpenActionView {
    BuildStorage(Seq<char>),
    BuildLog(Seq<char>),
    ReadTiers,
    BuildTier(Seq<char>),
    BuildClock(Seq<char>),
    ReadTunings,
    BuildCoordinator(Seq<char>),
    Acquire,
    Recover,
    StartEpoch(u16),
    Assemble,
}

impl View for OpenAction {
    type V = OpenActionView;

    open spec fn view(&self) -> OpenActionView {
        match self {
            OpenAction::BuildStorage(s) => OpenActionView::BuildStorage(s@),
            OpenAction::BuildLog(s) => OpenActionView::BuildLog(s@),
            OpenAction::ReadTiers => OpenActionView::ReadTiers,
            OpenAction::BuildTier(s) => OpenActionView::BuildTier(s@),
            OpenAction::BuildClock(s) => OpenActionView::BuildClock(s@),
            OpenAction::ReadTunings => OpenActionView::ReadTunings,
            OpenAction::BuildCoordinator(s) => OpenActionView::BuildCoordinator(s@),
            OpenAction::Acquire => OpenActionView::Acquire,
            OpenAction::Recover => OpenActionView::Recover,
            OpenAction::StartEpoch(e) => OpenActionView::StartEpoch(*e),
            OpenAction::Assemble => OpenActionView::Assemble,
        }
    }
}

/// The backends that the configuration names, where it names them.
pub struct Backends {
    pub storage: Option<String>,
    pub log: Option<String>,
    pub clock: Option<String>,
    pub coordinator: Option<String>,
}

pub open spec fn or_text(name: Option<String>, default: Seq<char>) -> Seq<char> {
    match name {
        Some(s) => s@,
        None => default,
    }
}

fn name_or(name: &Option<String>, default: &str) -> (r: String)
    ensures
        r@ == or_text(*name, default@),
{
    match name {
        Some(s) => s.clone(),
        None => default.to_owned(),
    }
}

/// Where the start stands: what the last action was.
#[derive(Clone, Copy, Debug, PartialEq, Eq, Structural)]
pub enum OpenPhase {
    Storage,
    Log,
    Tiers,
    /// So many tiers are still to be built after the one that is being built.
    Tier(usize),
    Clock,
    Tunings,
    Coordinator,
    Acquire,
    Recover,
    Epoch,
    Over,
}

/// A node that starts.
pub struct Opening {
    pub backends: Backends,
    pub phase: OpenPhase,
    pub store: Durability,
    pub tiers: Vec<String>,
    pub settings: Option<Settings>,
    /// The time between the heartbeats of the coordinator, where there is one.
    pub heartbeat_ms: Option<u64>,
    pub epoch: Option<u16>,
}

/// The event answers the last action.
pub open spec fn answers(phase: OpenPhase, event: OpenEvent) -> bool {
    match phase {
        OpenPhase::Storage => event is StorageBuilt,
        OpenPhase::Log => event is LogBuilt,
        OpenPhase::Tiers => event is TiersRead,
        OpenPhase::Tier(_) => event is TierBuilt,
        OpenPhase::Clock => event is ClockBuilt,
        OpenPhase::Tunings => event is TuningsRead,
        OpenPhase::Coordinator => event is CoordinatorBuilt,
        OpenPhase::Acquire => event is Granted,
        OpenPhase::Recover => event is Recovered,
        OpenPhase::Epoch => event is EpochStarted,
        OpenPhase::Over => false,
    }
}

/// What comes after an event, or why the node does not start.
pub open spec fn opening_next(o: Opening, event: OpenEvent) -> Result<OpenActionView, ErrorView> {
    match event {
        OpenEvent::StorageBuilt(_) => Ok(
            OpenActionView::BuildLog(or_text(o.backends.log, "memory"@)),
        ),
        OpenEvent::LogBuilt(log) => if log == Durability::Durable && o.store
            != Durability::Durable {
            Err(ErrorView::VolatileBlockStore)
        } else {
            Ok(OpenActionView::ReadTiers)
        },
        OpenEvent::TiersRead(tiers) => if tiers@.len() == 0 {
            Ok(OpenActionView::BuildClock(or_text(o.backends.clock, "system"@)))
        } else {
            Ok(OpenActionView::BuildTier(tiers@.last()@))
        },
        OpenEvent::TierBuilt => if o.phase->Tier_0 == 0 {
            Ok(OpenActionView::BuildClock(or_text(o.backends.clock, "system"@)))
        } else {
            Ok(OpenActionView::BuildTier(o.tiers@[o.phase->Tier_0 - 1]@))
        },
        OpenEvent::ClockBuilt => Ok(OpenActionView::ReadTunings),
        OpenEvent::TuningsRead(t) => match tuning_fault(t.node) {
            Some(text) => Err(ErrorView::InvalidNodeConfig(text)),
            None => {
                let coordinator = or_text(o.backends.coordinator, "designated-writer"@);
                let log = or_text(o.backends.log, "memory"@);
                if coordinator == "cas-failover"@ && log != "object-store"@ {
                    Err(ErrorView::CasRequiresSharedLog(log))
                } else if t.node.roles@.to_set().contains(NodeRole::Writer) {
                    Ok(OpenActionView::BuildCoordinator(coordinator))
                } else {
                    Ok(OpenActionView::Recover)
                }
            },
        },
        OpenEvent::CoordinatorBuilt(_) => Ok(OpenActionView::Acquire),
        OpenEvent::Granted(_) => Ok(OpenActionView::Recover),
        OpenEvent::Recovered => match o.epoch {
            Some(epoch) => Ok(OpenActionView::StartEpoch(epoch)),
            None => Ok(OpenActionView::Assemble),
        },
        OpenEvent::EpochStarted => Ok(OpenActionView::Assemble),
    }
}

/// How many tiers are still to be built after the one that is built next. They
/// are built one by one, the last one first.
pub open spec fn tiers_left(o: Opening, event: OpenEvent) -> usize {
    match event {
        OpenEvent::TiersRead(tiers) => (tiers@.len() - 1) as usize,
        OpenEvent::TierBuilt => (o.phase->Tier_0 - 1) as usize,
        _ => 0,
    }
}

/// The phase of an action.
pub open spec fn phase_of(action: OpenActionView, left: usize) -> OpenPhase {
    match action {
        OpenActionView::BuildStorage(_) => OpenPhase::Storage,
        OpenActionView::BuildLog(_) => OpenPhase::Log,
        OpenActionView::ReadTiers => OpenPhase::Tiers,
        OpenActionView::BuildTier(_) => OpenPhase::Tier(left),
        OpenActionView::BuildClock(_) => OpenPhase::Clock,
        OpenActionView::ReadTunings => OpenPhase::Tunings,
        OpenActionView::BuildCoordinator(_) => OpenPhase::Coordinator,
        OpenActionView::Acquire => OpenPhase::Acquire,
        OpenActionView::Recover => OpenPhase::Recover,
        OpenActionView::StartEpoch(_) => OpenPhase::Epoch,
        OpenActionView::Assemble => OpenPhase::Over,
    }
}

/// What a node that starts remembers of an event.
pub open spec fn remembers(before: Opening, event: OpenEvent, after: Opening) -> bool {
    &&& after.backends == before.backends
    &&& after.store == (match event {
        OpenEvent::StorageBuilt(d) => d,
        _ => before.store,
    })
    &&& after.tiers@ == (match event {
        OpenEvent::TiersRead(tiers) => tiers@,
        _ => before.tiers@,
    })
    &&& after.heartbeat_ms == (match event {
        OpenEvent::CoordinatorBuilt(ms) => Some(ms),
        _ => before.heartbeat_ms,
    })
    &&& after.epoch == (match event {
        OpenEvent::Granted(g) => g.epoch,
        _ => before.epoch,
    })
    &&& match event {
        OpenEvent::TuningsRead(t) => (after.settings matches Some(s) && s.roles@
            == t.node.roles@.to_set() && s.node == t.node && s.log == t.log && s.storage
            == t.storage && s.query == t.query && s.gc == t.gc),
        _ => after.settings == before.settings,
    }
}

impl Opening {
    pub open spec fn wf(&self) -> bool {
        self.phase matches OpenPhase::Tier(left) ==> left < self.tiers@.len()
    }

    /// The store comes first: what is built later may use it.
    pub fn start(backends: Backends) -> (r: (Opening, OpenAction))
        ensures
            r.0.wf(),
            r.0.backends == backends,
            r.0.phase == OpenPhase::Storage,
            r.0.store == Durability::Unknown,
            r.0.tiers@.len() == 0,
            r.0.settings is None,
            r.0.heartbeat_ms is None,
            r.0.epoch is None,
            r.1@ == OpenActionView::BuildStorage(or_text(backends.storage, "memory"@)),
    {
        let name = name_or(&backends.storage, "memory");
        (
            Opening {
                backends,
                phase: OpenPhase::Storage,
                store: Durability::Unknown,
                tiers: Vec::new(),
                settings: None,
                heartbeat_ms: None,
                epoch: None,
            },
            OpenAction::BuildStorage(name),
        )
    }

    fn build_clock(&mut self) -> (r: OpenAction)
        ensures
            final(self).wf(),
            final(self).phase == OpenPhase::Clock,
            final(self).backends == old(self).backends,
            final(self).store == old(self).store,
            final(self).tiers == old(self).tiers,
            final(self).settings == old(self).settings,
            final(self).heartbeat_ms == old(self).heartbeat_ms,
            final(self).epoch == old(self).epoch,
            r@ == OpenActionView::BuildClock(or_text(old(self).backends.clock, "system"@)),
    {
        self.phase = OpenPhase::Clock;
        OpenAction::BuildClock(name_or(&self.backends.clock, "system"))
    }

    fn build_tier(&mut self, at: usize) -> (r: OpenAction)
        requires
            at < old(self).tiers@.len(),
        ensures
            final(self).wf(),
            final(self).phase == OpenPhase::Tier(at),
            final(self).backends == old(self).backends,
            final(self).store == old(self).store,
            final(self).tiers == old(self).tiers,
            final(self).settings == old(self).settings,
            final(self).heartbeat_ms == old(self).heartbeat_ms,
            final(self).epoch == old(self).epoch,
            r@ == OpenActionView::BuildTier(old(self).tiers@[at as int]@),
    {
        self.phase = OpenPhase::Tier(at);
        OpenAction::BuildTier(self.tiers[at].clone())
    }

    /// Takes in what was done, or why it failed, which ends the start. The tiers
    /// of the cache are built from the last to the first, so that a read asks the
    /// first one first.
    pub fn step(&mut self, event: Result<OpenEvent, EngineError>) -> (r: Result<
        OpenAction,
        EngineError,
    >)
        requires
            old(self).wf(),
            event matches Ok(e) ==> answers(old(self).phase, e),
        ensures
            final(self).wf(),
            match event {
                Err(e) => r == Err::<OpenAction, EngineError>(e) && *final(self) == *old(self),
                Ok(e) => match opening_next(*old(self), e) {
                    Err(fault) => (r matches Err(err) && err@ == fault) && *final(self) == *old(
                        self,
                    ),
                    Ok(action) => {
                        &&& (r matches Ok(a) && a@ == action)
                        &&& remembers(*old(self), e, *final(self))
                        &&& final(self).phase == phase_of(action, tiers_left(*old(self), e))
                    },
                },
            },
    {
        let event = match event {
            Ok(event) => event,
            Err(e) => {
                return Err(e);
            },
        };
        match event {
            OpenEvent::StorageBuilt(durability) => {
                self.store = durability;
                self.phase = OpenPhase::Log;
                let action = OpenAction::BuildLog(name_or(&self.backends.log, "memory"));
                Ok(action)
            },
            OpenEvent::LogBuilt(durability) => {
                match check_durability(durability, self.store) {
                    Ok(()) => {},
                    Err(e) => {
                        return Err(e);
                    },
                }
                self.phase = OpenPhase::Tiers;
                Ok(OpenAction::ReadTiers)
            },
            OpenEvent::TiersRead(tiers) => {
                self.tiers = tiers;
                let n: usize = self.tiers.len();
                if n == 0 {
                    let action = self.build_clock();
                    return Ok(action);
                }
                let action = self.build_tier(n - 1);
                Ok(action)
            },
            OpenEvent::TierBuilt => {
                let left: usize = match self.phase {
                    OpenPhase::Tier(left) => left,
                    _ => 0,
                };
                if left == 0 {
                    let action = self.build_clock();
                    return Ok(action);
                }
                let action = self.build_tier(left - 1);
                Ok(action)
            },
            OpenEvent::ClockBuilt => {
                self.phase = OpenPhase::Tunings;
                Ok(OpenAction::ReadTunings)
            },
            OpenEvent::TuningsRead(t) => {
                let (roles, node) = match t.node.validate() {
                    Ok(pair) => pair,
                    Err(text) => {
                        return Err(EngineError::InvalidNodeConfig(text));
                    },
                };
                let coordinator = name_or(&self.backends.coordinator, "designated-writer");
                let log = name_or(&self.backends.log, "memory");
                if text_is(&coordinator, "cas-failover") && !text_is(&log, "object-store") {
                    return Err(EngineError::CasRequiresSharedLog(log));
                }
                let writes = roles.contains(NodeRole::Writer);
                self.settings = Some(
                    Settings {
                        roles,
                        log: t.log,
                        storage: t.storage,
                        query: t.query,
                        gc: t.gc,
                        node,
                    },
                );
                if writes {
                    self.phase = OpenPhase::Coordinator;
                    let action = OpenAction::BuildCoordinator(coordinator);
                    return Ok(action);
                }
                self.phase = OpenPhase::Recover;
                Ok(OpenAction::Recover)
            },
            OpenEvent::CoordinatorBuilt(ms) => {
                self.heartbeat_ms = Some(ms);
                self.phase = OpenPhase::Acquire;
                Ok(OpenAction::Acquire)
            },
            OpenEvent::Granted(grant) => {
                self.epoch = grant.epoch;
                self.phase = OpenPhase::Recover;
                Ok(OpenAction::Recover)
            },
            OpenEvent::Recovered => match self.epoch {
                Some(epoch) => {
                    self.phase = OpenPhase::Epoch;
                    Ok(OpenAction::StartEpoch(epoch))
                },
                None => {
                    self.phase = OpenPhase::Over;
                    Ok(OpenAction::Assemble)
                },
            },
            OpenEvent::EpochStarted => {
                self.phase = OpenPhase::Over;
                Ok(OpenAction::Assemble)
            },
        }
    }
}

/// Every tier of the cache is built, each once, from the last to the first: with
/// so many left, the next is the one before, and the clock follows the first.
pub proof fn law_tiers_are_built_one_by_one(o: Opening, left: usize)
    requires
        o.phase == OpenPhase::Tier(left),
        left < o.tiers@.len(),
    ensures
        opening_next(o, OpenEvent::TierBuilt) == Ok::<OpenActionView, ErrorView>(
            if left == 0 {
                OpenActionView::BuildClock(or_text(o.backends.clock, "system"@))
            } else {
                OpenActionView::BuildTier(o.tiers@[left - 1]@)
            },
        ),
        left > 0 ==> phase_of(
            opening_next(o, OpenEvent::TierBuilt)->Ok_0,
            tiers_left(o, OpenEvent::TierBuilt),
        ) == OpenPhase::Tier((left - 1) as usize),
{
}

/// A writer recovers only with the coordinator's grant: what leads to recovery
/// is a grant, or that the node does not write.
pub proof fn law_writers_recover_with_a_grant(o: Opening, event: OpenEvent)
    requires
        opening_next(o, event) == Ok::<OpenActionView, ErrorView>(OpenActionView::Recover),
    ensures
        event is Granted || (event matches OpenEvent::TuningsRead(t)
            && !t.node.roles@.to_set().contains(NodeRole::Writer)),
{
}

/// An epoch is started only behind recovery, and only the one that was granted.
pub proof fn law_epochs_start_behind_recovery(o: Opening, event: OpenEvent, epoch: u16)
    requires
        opening_next(o, event) == Ok::<OpenActionView, ErrorView>(
            OpenActionView::StartEpoch(epoch),
        ),
    ensures
        event is Recovered,
        o.epoch == Some(epoch),
{
}

/// What runs in a node, and how it is tuned.
pub struct Assembly {
    pub roles: NodeRoles,
    /// The writer's loop runs.
    pub writer: bool,
    /// The log is followed.
    pub follower: bool,
    /// The lease is renewed.
    pub heartbeat: bool,
    pub writer_config: WriterConfig,
    pub max_path_depth: u32,
    pub query_limits: QueryLimits,
    pub gc_config: GcConfig,
    pub poll_interval_ms: u64,
    pub batch_records: u64,
    pub basis_timeout_ms: u64,
    pub progress: ProgressState,
}

/// What runs in a node: the writer's loop or a follower, never both.
pub fn assemble(
    settings: Settings,
    heartbeat_ms: Option<u64>,
    next_tx_id: u64,
    watermark: LogPosition,
) -> (r: Assembly)
    ensures
        r.roles == settings.roles,
        r.writer == settings.roles@.contains(NodeRole::Writer),
        r.follower == !r.writer,
        r.heartbeat == (r.writer && heartbeat_ms is Some && heartbeat_ms->0 > 0),
        r.writer_config == (WriterConfig {
            window_ms: settings.log.group_commit_window_ms,
            max_bytes: settings.log.group_commit_max_bytes,
            max_block_rows: settings.storage.max_block_rows,
            max_live_bytes: settings.storage.max_live_bytes,
            flush_interval_ms: settings.storage.flush_interval_ms,
            queue_len: settings.node.submission_queue_len,
        }),
        r.max_path_depth == settings.query.max_path_depth,
        r.query_limits == (QueryLimits {
            path_output_batch_rows: settings.query.path_output_batch_rows,
            path_expand: PathExpandLimits {
                row_budget: settings.query.path_row_budget,
                frontier_budget: settings.query.path_frontier_budget,
                max_depth: settings.query.max_path_depth,
            },
            traversal_node_budget: settings.query.traversal_node_budget,
            traversal_adjacency_budget: settings.query.traversal_adjacency_budget,
        }),
        r.gc_config == (GcConfig {
            enabled: settings.gc.enabled,
            blocks_to_keep: settings.gc.blocks_to_keep,
            garbage_lifetime_us: hours_us(settings.gc.garbage_lifetime_hours as int) as i64,
        }),
        r.poll_interval_ms == settings.node.tail_poll_interval_ms,
        r.batch_records == settings.node.tail_batch_records,
        r.basis_timeout_ms == settings.node.basis_timeout_ms,
        r.progress.applied.tx_id == next_tx_id,
        r.progress.applied.log_position == watermark,
        r.progress.log_head == watermark,
        r.progress.follower_error is None,
{
    let writer = settings.roles.contains(NodeRole::Writer);
    let heartbeat = match heartbeat_ms {
        Some(ms) => writer && ms > 0,
        None => false,
    };
    Assembly {
        writer,
        follower: !writer,
        heartbeat,
        writer_config: writer_config(
            settings.log,
            settings.storage,
            settings.node.submission_queue_len,
        ),
        max_path_depth: settings.query.max_path_depth,
        query_limits: settings.query.limits(),
        gc_config: settings.gc.into_config(),
        poll_interval_ms: settings.node.tail_poll_interval_ms,
        batch_records: settings.node.tail_batch_records,
        basis_timeout_ms: settings.node.basis_timeout_ms,
        progress: ProgressState::running(next_tx_id, watermark, watermark),
        roles: settings.roles,
    }
}

/// A node without a configuration: all roles, the defaults, and, where nothing
/// it writes survives anyway, commits that wait for no others.
pub fn default_settings(volatile: bool) -> (r: Settings)
    ensures
        r.roles@ == Set::<NodeRole>::full(),
        r.log.group_commit_window_ms == (if volatile {
            0u64
        } else {
            15
        }),
        r.log.group_commit_max_bytes == 8_388_608,
        r.storage == (StorageTuning {
            max_block_rows: 100_000,
            max_live_bytes: 536_870_912,
            flush_interval_ms: 300_000,
        }),
        r.query == (QueryTuning {
            max_path_depth: 10,
            path_output_batch_rows: 8_192,
            path_row_budget: 100_000,
            path_frontier_budget: 100_000,
            traversal_node_budget: 100_000,
            traversal_adjacency_budget: 250_000,
        }),
        r.gc == (GcTuning { enabled: false, blocks_to_keep: 10, garbage_lifetime_hours: 24 }),
        r.node.tail_poll_interval_ms == 50,
        r.node.tail_batch_records == 1024,
        r.node.basis_timeout_ms == 5000,
        r.node.submission_queue_len == 256,
{
    let mut log = LogTuning::default();
    if volatile {
        log.group_commit_window_ms = 0;
    }
    Settings {
        roles: NodeRoles::all(),
        log,
        storage: StorageTuning::default(),
        query: QueryTuning::default(),
        gc: GcTuning::default(),
        node: NodeTuning {
            roles: crate::node::default_roles(),
            tail_poll_interval_ms: crate::node::default_tail_poll_interval_ms(),
            tail_batch_records: crate::node::default_tail_batch_records(),
            basis_timeout_ms: crate::node::default_basis_timeout_ms(),
            submission_queue_len: crate::node::default_submission_queue_len(),
        },
    }
}

/// What is to be listed to find the advertisement of a writer. Some stores leave
/// an object out of a list of its own key; the object is never asked for before
/// it is known to be there.
#[derive(Clone, Copy, Debug, PartialEq, Eq, Structural)]
pub enum Lookup {
    ListParent,
    Read,
    Absent,
}

/// What follows from a list of the keys, under the key itself or under its
/// parent.
pub fn writer_lookup(keys: &Vec<String>, of_parent: bool) -> (r: Lookup)
    ensures
        r == (if views(keys@).contains(WRITER_ADVERTISEMENT_KEY@) {
            Lookup::Read
        } else if of_parent {
            Lookup::Absent
        } else {
            Lookup::ListParent
        }),
{
    if contains_text(keys, WRITER_ADVERTISEMENT_KEY) {
        Lookup::Read
    } else if of_parent {
        Lookup::Absent
    } else {
        Lookup::ListParent
    }
}

/// The name of the object with which a store is probed.
pub open spec fn probe_name(at_us: i64, node_id: Seq<char>) -> Seq<char> {
    PROBE_PREFIX@ + "/"@ + signed_decimal(at_us as int) + ("-"@ + node_id)
}

/// The object with which a store is probed.
pub fn probe_key(at_us: i64, node_id: &String) -> (r: String)
    ensures
        r@ == probe_name(at_us, node_id@),
{
    let tail = concat2("-", node_id.as_str());
    concat4(PROBE_PREFIX, "/", signed_decimal_text(at_us).as_str(), tail.as_str())
}

/// Probes of different nodes never share an object, even in the same
/// microsecond.
pub proof fn law_probes_do_not_collide(at_us: i64, a: Seq<char>, b: Seq<char>)
    requires
        a != b,
    ensures
        probe_name(at_us, a) != probe_name(at_us, b),
{
    let front = PROBE_PREFIX@ + "/"@ + signed_decimal(at_us as int) + "-"@;
    let x = probe_name(at_us, a);
    let y = probe_name(at_us, b);
    assert(x =~= front + a);
    assert(y =~= front + b);
    if x == y {
        assert(a =~= x.subrange(front.len() as int, x.len() as int));
        assert(b =~= y.subrange(front.len() as int, y.len() as int));
    }
}

} // verus!
