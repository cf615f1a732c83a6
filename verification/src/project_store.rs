//! Coordination state of the bounded, asynchronous project-database access: which source
//! window is wanted, loaded, failed or being queried, and the single-flight save queue.
//! The database worker and the record payloads live with the caller; this state decides.

use vstd::prelude::*;
use crate::world::{CellCoord, WorldSpaceId};

verus! {

/// How many cells around the focus cell a source window reaches.
pub const SOURCE_RADIUS_CELLS: i32 = 2;

/// A square window of source cells in one world space.
#[derive(Clone, Copy, Debug, PartialEq, Eq, Structural)]
pub struct ProjectQueryWindow {
    pub space: WorldSpaceId,
    pub minimum: CellCoord,
    pub maximum: CellCoord,
}

/// The value, limited to the range of `i32`.
pub open spec fn clamp_i32(v: int) -> i32 {
    if v > i32::MAX {
        i32::MAX
    } else if v < i32::MIN {
        i32::MIN
    } else {
        v as i32
    }
}

fn saturating_offset(v: i32, delta: i32) -> (r: i32)
    ensures
        r == clamp_i32(v + delta),
{
    let wide = v as i64 + delta as i64;
    if wide > i32::MAX as i64 {
        i32::MAX
    } else if wide < i32::MIN as i64 {
        i32::MIN
    } else {
        wide as i32
    }
}

impl ProjectQueryWindow {
    /// The window of the source radius around a cell, saturating at the coordinate edges.
    pub fn around(space: WorldSpaceId, center: CellCoord) -> (w: Self)
        ensures
            w.space == space,
            w.minimum.x == clamp_i32(center.x - SOURCE_RADIUS_CELLS),
            w.minimum.z == clamp_i32(center.z - SOURCE_RADIUS_CELLS),
            w.maximum.x == clamp_i32(center.x + SOURCE_RADIUS_CELLS),
            w.maximum.z == clamp_i32(center.z + SOURCE_RADIUS_CELLS),
    {
        ProjectQueryWindow {
            space,
            minimum: CellCoord {
                x: saturating_offset(center.x, -SOURCE_RADIUS_CELLS),
                z: saturating_offset(center.z, -SOURCE_RADIUS_CELLS),
            },
            maximum: CellCoord {
                x: saturating_offset(center.x, SOURCE_RADIUS_CELLS),
                z: saturating_offset(center.z, SOURCE_RADIUS_CELLS),
            },
        }
    }
}

/// A kind of source data that a tool or preview reads.
#[derive(Clone, Copy, Debug, PartialEq, Eq, Hash, Structural)]
pub enum EditorSourceDomain {
    CellDescriptors,
    ObjectPlacements,
    ObjectDefinitions,
    Collision,
    Navigation,
    EnvironmentCoverage,
}

/// Which source domains a window query loads.
#[derive(Clone, Copy, Debug, Default, PartialEq, Eq, Structural)]
pub struct ProjectSourceDomains {
    pub cells: bool,
    pub objects: bool,
    pub environment_coverage: bool,
}

impl ProjectSourceDomains {
    /// The domains of a descriptor list that the store loads.
    pub fn from_domains(domains: &[EditorSourceDomain]) -> (d: Self)
        ensures
            d.cells == domains@.contains(EditorSourceDomain::CellDescriptors),
            d.objects == domains@.contains(EditorSourceDomain::ObjectPlacements),
            d.environment_coverage == domains@.contains(EditorSourceDomain::EnvironmentCoverage),
    {
        let mut d = ProjectSourceDomains { cells: false, objects: false, environment_coverage: false };
        let mut i: usize = 0;
        while i < domains.len()
            invariant
                i <= domains@.len(),
                d.cells == domains@.take(i as int).contains(EditorSourceDomain::CellDescriptors),
                d.objects == domains@.take(i as int).contains(EditorSourceDomain::ObjectPlacements),
                d.environment_coverage == domains@.take(i as int).contains(
                    EditorSourceDomain::EnvironmentCoverage,
                ),
            decreases domains@.len() - i,
        {
            let domain = domains[i];
            proof {
                let t = domains@.take(i as int);
                let u = domains@.take(i + 1);
                assert(u =~= t.push(domain));
                assert forall|x: EditorSourceDomain| u.contains(x) <==> (t.contains(x) || x == domain) by {
                    if u.contains(x) {
                        let k = choose|k: int| 0 <= k < u.len() && u[k] == x;
                        if k < t.len() {
                            assert(t[k] == x);
                        }
                    }
                    if t.contains(x) {
                        let k = choose|k: int| 0 <= k < t.len() && t[k] == x;
                        assert(u[k] == x);
                    }
                    if x == domain {
                        assert(u[i as int] == x);
                    }
                }
            }
            match domain {
                EditorSourceDomain::CellDescriptors => d.cells = true,
                EditorSourceDomain::ObjectPlacements => d.objects = true,
                EditorSourceDomain::EnvironmentCoverage => d.environment_coverage = true,
                _ => {},
            }
            i = i + 1;
        }
        proof {
            assert(domains@.take(i as int) =~= domains@);
        }
        d
    }

    /// Whether any domain is loaded.
    pub fn any(self) -> (r: bool)
        ensures
            r == (self.cells || self.objects || self.environment_coverage),
    {
        self.cells || self.objects || self.environment_coverage
    }
}

/// One query handed to the database worker.
#[derive(Clone, Copy, Debug, PartialEq, Eq, Structural)]
pub struct InFlightQuery {
    pub revision: u64,
    pub window: ProjectQueryWindow,
    pub domains: ProjectSourceDomains,
}

/// One authored atmosphere write, checked against the revision it was based on.
#[derive(Clone, Copy, Debug, PartialEq, Eq, Structural)]
pub struct AtmosphereWrite {
    pub space: WorldSpaceId,
    pub expected_revision: i64,
    pub profile: crate::atmosphere::AtmosphereProfile,
}

/// Whether the store is opening, ready or failed.
#[derive(Clone, Debug, PartialEq, Eq)]
pub enum ProjectStorePhase {
    Opening,
    Ready,
    Failed(String),
}

/// The phase as plain text.
pub enum StorePhaseView {
    Opening,
    Ready,
    Failed(Seq<char>),
}

/// The phase as plain text.
pub open spec fn phase_view(p: ProjectStorePhase) -> StorePhaseView {
    match p {
        ProjectStorePhase::Opening => StorePhaseView::Opening,
        ProjectStorePhase::Ready => StorePhaseView::Ready,
        ProjectStorePhase::Failed(e) => StorePhaseView::Failed(e@),
    }
}

/// The four kinds of save transaction; at most one of all of them is pending or in flight.
#[derive(Clone, Copy, Debug, PartialEq, Eq, Structural)]
pub enum SaveKind {
    Atmosphere,
    Object,
    Dense,
    Vegetation,
}

/// What became of an attempt to hand a request to the worker.
#[derive(Clone, Copy, Debug, PartialEq, Eq, Structural)]
pub enum SendOutcome {
    Sent,
    Full,
    Disconnected,
}

/// The abstract state of the store.
pub struct ProjectStoreView {
    pub phase: StorePhaseView,
    pub write_error: Option<Seq<char>>,
    pub catalog_compatible: Option<bool>,
    pub desired_window: Option<ProjectQueryWindow>,
    pub desired_domains: ProjectSourceDomains,
    pub environment_focus: Option<(WorldSpaceId, CellCoord)>,
    pub loaded_window: Option<ProjectQueryWindow>,
    pub loaded_domains: ProjectSourceDomains,
    pub failed_window: Option<ProjectQueryWindow>,
    pub failed_domains: ProjectSourceDomains,
    pub in_flight: Option<InFlightQuery>,
    pub query_error: Option<Seq<char>>,
    pub next_revision: u64,
    pub source_epoch: u64,
    pub completed_queries: u64,
    pub stale_results: u64,
    pub pending_atmosphere_save: Option<(u64, Seq<AtmosphereWrite>)>,
    pub atmosphere_save_in_flight: Option<u64>,
    pub pending_object_save: Option<u64>,
    pub object_save_in_flight: Option<u64>,
    pub pending_dense_save: Option<u64>,
    pub dense_save_in_flight: Option<u64>,
    pub pending_vegetation_save: Option<u64>,
    pub vegetation_save_in_flight: Option<u64>,
    pub next_save_request_id: u64,
}

/// The identity that follows the given one: zero is never used.
pub open spec fn next_id(id: u64) -> u64 {
    if id == u64::MAX {
        1
    } else {
        (id + 1) as u64
    }
}

pub(crate) fn bump(id: u64) -> (r: u64)
    ensures
        r == next_id(id),
{
    if id == u64::MAX {
        1
    } else {
        id + 1
    }
}

/// Whether any save is pending or in flight.
pub open spec fn spec_save_in_flight(s: ProjectStoreView) -> bool {
    s.pending_object_save is Some || s.object_save_in_flight is Some || s.pending_dense_save is Some
        || s.dense_save_in_flight is Some || s.pending_vegetation_save is Some
        || s.vegetation_save_in_flight is Some || s.pending_atmosphere_save is Some
        || s.atmosphere_save_in_flight is Some
}

/// Whether a save transaction may be queued now.
pub open spec fn can_queue_save(s: ProjectStoreView) -> bool {
    !spec_save_in_flight(s) && s.write_error is None
}

/// Whether any save is in flight at the worker.
pub open spec fn spec_save_sent(s: ProjectStoreView) -> bool {
    s.object_save_in_flight is Some || s.dense_save_in_flight is Some
        || s.vegetation_save_in_flight is Some || s.atmosphere_save_in_flight is Some
}

/// The next save to hand to the worker: atmosphere, then object, dense and vegetation saves.
pub open spec fn spec_next_save(s: ProjectStoreView) -> Option<(SaveKind, u64)> {
    if !(s.phase is Ready) || spec_save_sent(s) {
        None
    } else if s.pending_atmosphere_save is Some {
        Some((SaveKind::Atmosphere, (s.pending_atmosphere_save->0).0))
    } else if s.pending_object_save is Some {
        Some((SaveKind::Object, s.pending_object_save->0))
    } else if s.pending_dense_save is Some {
        Some((SaveKind::Dense, s.pending_dense_save->0))
    } else if s.pending_vegetation_save is Some {
        Some((SaveKind::Vegetation, s.pending_vegetation_save->0))
    } else {
        None
    }
}

/// Whether queries may be dispatched at all.
pub open spec fn spec_queryable(s: ProjectStoreView) -> bool {
    s.phase is Ready && s.catalog_compatible != Some(false)
}

/// The next window query to hand to the worker.
pub open spec fn spec_next_query(s: ProjectStoreView) -> Option<InFlightQuery> {
    if !spec_queryable(s) || s.in_flight is Some || s.desired_window is None {
        None
    } else {
        let window = s.desired_window->0;
        let domains = s.desired_domains;
        if (s.loaded_window == Some(window) && s.loaded_domains == domains) || (s.failed_window
            == Some(window) && s.failed_domains == domains) {
            None
        } else {
            Some(InFlightQuery { revision: next_id(s.next_revision), window, domains })
        }
    }
}

/// No domains at all.
pub open spec fn no_domains() -> ProjectSourceDomains {
    ProjectSourceDomains { cells: false, objects: false, environment_coverage: false }
}

/// What a change of the wanted window does to the state; the flag says whether the loaded
/// window was discarded.
pub open spec fn demand_model(s: ProjectStoreView, desired: ProjectQueryWindow, domains: ProjectSourceDomains) -> (ProjectStoreView, bool) {
    if s.desired_window == Some(desired) && s.desired_domains == domains {
        (s, false)
    } else {
        let discard = (s.loaded_window is Some && s.loaded_window->0.space != desired.space)
            || s.loaded_domains != domains;
        let s1 = if discard { ProjectStoreView { loaded_window: None, ..s } } else { s };
        let s2 = ProjectStoreView { desired_window: Some(desired), desired_domains: domains, ..s1 };
        let s3 = if s2.failed_window != Some(desired) || s2.failed_domains != domains {
            ProjectStoreView { failed_window: None, failed_domains: no_domains(), query_error: None, ..s2 }
        } else {
            s2
        };
        (s3, discard)
    }
}

/// The centre of the wanted window: the environment focus of the same space for coverage
/// editing, else the viewpoint cell.
pub open spec fn demand_center(s: ProjectStoreView, space: WorldSpaceId, cell: CellCoord, domains: ProjectSourceDomains) -> CellCoord {
    if domains.environment_coverage && s.environment_focus is Some && (s.environment_focus->0).0
        == space {
        (s.environment_focus->0).1
    } else {
        cell
    }
}

/// What receiving a query result does; the flag says whether its snapshot is to be installed.
pub open spec fn receive_query_model(
    s: ProjectStoreView,
    revision: u64,
    window: ProjectQueryWindow,
    domains: ProjectSourceDomains,
    result: Result<(), Seq<char>>,
) -> (ProjectStoreView, bool) {
    let s1 = if s.in_flight == Some(InFlightQuery { revision, window, domains }) {
        ProjectStoreView { in_flight: None, ..s }
    } else {
        s
    };
    if s1.desired_window != Some(window) || s1.desired_domains != domains {
        (ProjectStoreView { stale_results: crate::jobs::saturating(s1.stale_results, 1), ..s1 }, false)
    } else {
        match result {
            Ok(()) => (
                ProjectStoreView {
                    loaded_window: Some(window),
                    loaded_domains: domains,
                    failed_window: None,
                    failed_domains: no_domains(),
                    query_error: None,
                    completed_queries: crate::jobs::saturating(s1.completed_queries, 1),
                    ..s1
                },
                true,
            ),
            Err(error) => (
                ProjectStoreView {
                    failed_window: Some(window),
                    failed_domains: domains,
                    query_error: Some(error),
                    ..s1
                },
                false,
            ),
        }
    }
}

/// The coordination state of the project database access.
pub struct ProjectEditorStore {
    phase: ProjectStorePhase,
    write_error: Option<String>,
    catalog_compatible: Option<bool>,
    desired_window: Option<ProjectQueryWindow>,
    desired_domains: ProjectSourceDomains,
    environment_focus: Option<(WorldSpaceId, CellCoord)>,
    loaded_window: Option<ProjectQueryWindow>,
    loaded_domains: ProjectSourceDomains,
    failed_window: Option<ProjectQueryWindow>,
    failed_domains: ProjectSourceDomains,
    in_flight: Option<InFlightQuery>,
    query_error: Option<String>,
    next_revision: u64,
    source_epoch: u64,
    completed_queries: u64,
    stale_results: u64,
    pending_atmosphere_save: Option<(u64, Vec<AtmosphereWrite>)>,
    atmosphere_save_in_flight: Option<u64>,
    pending_object_save: Option<u64>,
    object_save_in_flight: Option<u64>,
    pending_dense_save: Option<u64>,
    dense_save_in_flight: Option<u64>,
    pending_vegetation_save: Option<u64>,
    vegetation_save_in_flight: Option<u64>,
    next_save_request_id: u64,
}

/// The text of an optional string.
pub open spec fn opt_text(s: Option<String>) -> Option<Seq<char>> {
    match s {
        Some(t) => Some(t@),
        None => None,
    }
}

impl View for ProjectEditorStore {
    type V = ProjectStoreView;

    closed spec fn view(&self) -> ProjectStoreView {
        ProjectStoreView {
            phase: phase_view(self.phase),
            write_error: opt_text(self.write_error),
            catalog_compatible: self.catalog_compatible,
            desired_window: self.desired_window,
            desired_domains: self.desired_domains,
            environment_focus: self.environment_focus,
            loaded_window: self.loaded_window,
            loaded_domains: self.loaded_domains,
            failed_window: self.failed_window,
            failed_domains: self.failed_domains,
            in_flight: self.in_flight,
            query_error: opt_text(self.query_error),
            next_revision: self.next_revision,
            source_epoch: self.source_epoch,
            completed_queries: self.completed_queries,
            stale_results: self.stale_results,
            pending_atmosphere_save: match self.pending_atmosphere_save {
                Some(p) => Some((p.0, p.1@)),
                None => None,
            },
            atmosphere_save_in_flight: self.atmosphere_save_in_flight,
            pending_object_save: self.pending_object_save,
            object_save_in_flight: self.object_save_in_flight,
            pending_dense_save: self.pending_dense_save,
            dense_save_in_flight: self.dense_save_in_flight,
            pending_vegetation_save: self.pending_vegetation_save,
            vegetation_save_in_flight: self.vegetation_save_in_flight,
            next_save_request_id: self.next_save_request_id,
        }
    }
}

impl ProjectEditorStore {
    /// A store that is still opening its database.
    pub fn new() -> (s: Self)
        ensures
            s@.phase == StorePhaseView::Opening,
            s@.write_error is None,
            s@.catalog_compatible is None,
            s@.desired_window is None && s@.loaded_window is None && s@.failed_window is None,
            s@.environment_focus is None,
            s@.in_flight is None && s@.query_error is None,
            s@.next_revision == 0 && s@.source_epoch == 0 && s@.completed_queries == 0
                && s@.stale_results == 0 && s@.next_save_request_id == 0,
            !spec_save_in_flight(s@),
    {
        ProjectEditorStore {
            phase: ProjectStorePhase::Opening,
            write_error: None,
            catalog_compatible: None,
            desired_window: None,
            desired_domains: ProjectSourceDomains { cells: false, objects: false, environment_coverage: false },
            environment_focus: None,
            loaded_window: None,
            loaded_domains: ProjectSourceDomains { cells: false, objects: false, environment_coverage: false },
            failed_window: None,
            failed_domains: ProjectSourceDomains { cells: false, objects: false, environment_coverage: false },
            in_flight: None,
            query_error: None,
            next_revision: 0,
            source_epoch: 0,
            completed_queries: 0,
            stale_results: 0,
            pending_atmosphere_save: None,
            atmosphere_save_in_flight: None,
            pending_object_save: None,
            object_save_in_flight: None,
            pending_dense_save: None,
            dense_save_in_flight: None,
            pending_vegetation_save: None,
            vegetation_save_in_flight: None,
            next_save_request_id: 0,
        }
    }

    /// Whether any save is pending or in flight.
    pub fn save_in_flight(&self) -> (r: bool)
        ensures
            r == spec_save_in_flight(self@),
    {
        self.pending_object_save.is_some() || self.object_save_in_flight.is_some()
            || self.pending_dense_save.is_some() || self.dense_save_in_flight.is_some()
            || self.pending_vegetation_save.is_some() || self.vegetation_save_in_flight.is_some()
            || self.pending_atmosphere_save.is_some() || self.atmosphere_save_in_flight.is_some()
    }

    /// The error that makes the project read-only, if any.
    pub fn write_error(&self) -> (r: Option<&str>)
        ensures
            match r {
                Some(e) => self@.write_error == Some(e@),
                None => self@.write_error is None,
            },
    {
        match &self.write_error {
            Some(e) => Some(e.as_str()),
            None => None,
        }
    }

    /// Queues the atmosphere writes as the one save transaction; `None` when there is nothing
    /// to write, another save is pending or in flight, or the project is read-only.
    pub fn queue_atmospheres(&mut self, writes: Vec<AtmosphereWrite>) -> (id: Option<u64>)
        ensures
            id is Some <==> (writes@.len() > 0 && can_queue_save(old(self)@)),
            id is Some ==> final(self)@ == (ProjectStoreView {
                next_save_request_id: id->0,
                pending_atmosphere_save: Some((id->0, writes@)),
                ..old(self)@
            }) && id->0 == next_id(old(self)@.next_save_request_id),
            id is None ==> final(self)@ == old(self)@,
    {
        if writes.len() == 0 || self.save_in_flight() || self.write_error.is_some() {
            return None;
        }
        let id = bump(self.next_save_request_id);
        self.next_save_request_id = id;
        self.pending_atmosphere_save = Some((id, writes));
        Some(id)
    }

    /// Queues an object transaction of the given number of writes; the writes stay with the
    /// caller under the returned request identity.
    pub fn queue_object_transaction(&mut self, write_count: usize) -> (id: Option<u64>)
        ensures
            id is Some <==> (write_count > 0 && can_queue_save(old(self)@)),
            id is Some ==> final(self)@ == (ProjectStoreView {
                next_save_request_id: id->0,
                pending_object_save: Some(id->0),
                ..old(self)@
            }) && id->0 == next_id(old(self)@.next_save_request_id),
            id is None ==> final(self)@ == old(self)@,
    {
        if write_count == 0 || self.save_in_flight() || self.write_error.is_some() {
            return None;
        }
        let id = bump(self.next_save_request_id);
        self.next_save_request_id = id;
        self.pending_object_save = Some(id);
        Some(id)
    }

    /// The identity of the dense transaction waiting to be handed to the worker.
    pub fn pending_dense_save(&self) -> (r: Option<u64>)
        ensures
            r == self@.pending_dense_save,
    {
        self.pending_dense_save
    }

    /// Queues a dense-source transaction when it carries anything to write.
    pub fn queue_dense_transaction(&mut self, has_writes: bool) -> (id: Option<u64>)
        ensures
            id is Some <==> (has_writes && can_queue_save(old(self)@)),
            id is Some ==> final(self)@ == (ProjectStoreView {
                next_save_request_id: id->0,
                pending_dense_save: Some(id->0),
                ..old(self)@
            }) && id->0 == next_id(old(self)@.next_save_request_id),
            id is None ==> final(self)@ == old(self)@,
    {
        if !has_writes || self.save_in_flight() || self.write_error.is_some() {
            return None;
        }
        let id = bump(self.next_save_request_id);
        self.next_save_request_id = id;
        self.pending_dense_save = Some(id);
        Some(id)
    }

    /// Queues a vegetation catalog replacement when the replacement is valid.
    pub fn queue_vegetation_catalog(&mut self, replacement_valid: bool) -> (id: Option<u64>)
        ensures
            id is Some <==> (replacement_valid && can_queue_save(old(self)@)),
            id is Some ==> final(self)@ == (ProjectStoreView {
                next_save_request_id: id->0,
                pending_vegetation_save: Some(id->0),
                ..old(self)@
            }) && id->0 == next_id(old(self)@.next_save_request_id),
            id is None ==> final(self)@ == old(self)@,
    {
        if self.save_in_flight() || self.write_error.is_some() || !replacement_valid {
            return None;
        }
        let id = bump(self.next_save_request_id);
        self.next_save_request_id = id;
        self.pending_vegetation_save = Some(id);
        Some(id)
    }

    /// The next save to hand to the worker, if the store is ready and nothing is in flight.
    pub fn next_save(&self) -> (r: Option<(SaveKind, u64)>)
        ensures
            r == spec_next_save(self@),
    {
        match self.phase {
            ProjectStorePhase::Ready => {},
            _ => return None,
        }
        if self.object_save_in_flight.is_some() || self.dense_save_in_flight.is_some()
            || self.vegetation_save_in_flight.is_some() || self.atmosphere_save_in_flight.is_some() {
            return None;
        }
        if let Some((id, _)) = &self.pending_atmosphere_save {
            return Some((SaveKind::Atmosphere, *id));
        }
        if let Some(id) = self.pending_object_save {
            return Some((SaveKind::Object, id));
        }
        if let Some(id) = self.pending_dense_save {
            return Some((SaveKind::Dense, id));
        }
        if let Some(id) = self.pending_vegetation_save {
            return Some((SaveKind::Vegetation, id));
        }
        None
    }

    /// The pending atmosphere writes, for handing to the worker.
    pub fn pending_atmosphere_writes(&self) -> (r: Option<&Vec<AtmosphereWrite>>)
        ensures
            match r {
                Some(w) => self@.pending_atmosphere_save is Some && w@ == (self@.pending_atmosphere_save->0).1,
                None => self@.pending_atmosphere_save is None,
            },
    {
        match &self.pending_atmosphere_save {
            Some((_, writes)) => Some(writes),
            None => None,
        }
    }

    /// Records what became of handing the pending save of a kind to the worker.
    pub fn save_dispatched(&mut self, kind: SaveKind, outcome: SendOutcome)
        ensures
            final(self)@ == save_dispatched_model(old(self)@, kind, outcome),
    {
        match outcome {
            SendOutcome::Full => {},
            SendOutcome::Sent => match kind {
                SaveKind::Atmosphere => {
                    if let Some((id, _)) = &self.pending_atmosphere_save {
                        let id = *id;
                        self.pending_atmosphere_save = None;
                        self.atmosphere_save_in_flight = Some(id);
                    }
                },
                SaveKind::Object => {
                    if let Some(id) = self.pending_object_save {
                        self.pending_object_save = None;
                        self.object_save_in_flight = Some(id);
                    }
                },
                SaveKind::Dense => {
                    if let Some(id) = self.pending_dense_save {
                        self.pending_dense_save = None;
                        self.dense_save_in_flight = Some(id);
                    }
                },
                SaveKind::Vegetation => {
                    if let Some(id) = self.pending_vegetation_save {
                        self.pending_vegetation_save = None;
                        self.vegetation_save_in_flight = Some(id);
                    }
                },
            },
            SendOutcome::Disconnected => match kind {
                SaveKind::Atmosphere => {
                    self.write_error = Some(String::from_str("Project writer stopped"));
                },
                _ => {
                    self.phase = ProjectStorePhase::Failed(
                        String::from_str("project request channel closed"),
                    );
                },
            },
        }
    }

    /// Receives the result of an atmosphere save; `false` when it is not the save in flight.
    pub fn finish_atmosphere_save(&mut self, request_id: u64, committed: bool) -> (accepted: bool)
        ensures
            accepted == (old(self)@.atmosphere_save_in_flight == Some(request_id)),
            final(self)@ == (if !accepted {
                old(self)@
            } else {
                ProjectStoreView {
                    atmosphere_save_in_flight: None,
                    source_epoch: if committed {
                        next_id(old(self)@.source_epoch)
                    } else {
                        old(self)@.source_epoch
                    },
                    ..old(self)@
                }
            }),
    {
        if self.atmosphere_save_in_flight != Some(request_id) {
            return false;
        }
        self.atmosphere_save_in_flight = None;
        if committed {
            self.source_epoch = bump(self.source_epoch);
        }
        true
    }

    /// Receives the result of an object transaction. A commit advances the source epoch and
    /// discards the loaded window, whose objects are now older than the database.
    pub fn finish_object_save(&mut self, request_id: u64, committed: bool)
        ensures
            final(self)@ == (ProjectStoreView {
                object_save_in_flight: if old(self)@.object_save_in_flight == Some(request_id) {
                    None
                } else {
                    old(self)@.object_save_in_flight
                },
                source_epoch: if committed {
                    next_id(old(self)@.source_epoch)
                } else {
                    old(self)@.source_epoch
                },
                loaded_window: if committed { None } else { old(self)@.loaded_window },
                ..old(self)@
            }),
    {
        if self.object_save_in_flight == Some(request_id) {
            self.object_save_in_flight = None;
        }
        if committed {
            self.source_epoch = bump(self.source_epoch);
            self.loaded_window = None;
        }
    }

    /// Receives the result of a dense-source transaction. A commit advances the source epoch
    /// and discards the loaded window.
    pub fn finish_dense_save(&mut self, request_id: u64, committed: bool)
        ensures
            final(self)@ == (ProjectStoreView {
                dense_save_in_flight: if old(self)@.dense_save_in_flight == Some(request_id) {
                    None
                } else {
                    old(self)@.dense_save_in_flight
                },
                source_epoch: if committed {
                    next_id(old(self)@.source_epoch)
                } else {
                    old(self)@.source_epoch
                },
                loaded_window: if committed { None } else { old(self)@.loaded_window },
                ..old(self)@
            }),
    {
        if self.dense_save_in_flight == Some(request_id) {
            self.dense_save_in_flight = None;
        }
        if committed {
            self.source_epoch = bump(self.source_epoch);
            self.loaded_window = None;
        }
    }

    /// Receives the result of a vegetation catalog replacement.
    pub fn finish_vegetation_save(&mut self, request_id: u64, committed: bool)
        ensures
            final(self)@ == (ProjectStoreView {
                vegetation_save_in_flight: if old(self)@.vegetation_save_in_flight == Some(request_id) {
                    None
                } else {
                    old(self)@.vegetation_save_in_flight
                },
                source_epoch: if committed {
                    next_id(old(self)@.source_epoch)
                } else {
                    old(self)@.source_epoch
                },
                ..old(self)@
            }),
    {
        if self.vegetation_save_in_flight == Some(request_id) {
            self.vegetation_save_in_flight = None;
        }
        if committed {
            self.source_epoch = bump(self.source_epoch);
        }
    }

    /// Records the outcome of opening the database.
    pub fn opened(&mut self, result: Result<Option<String>, String>)
        ensures
            final(self)@ == (match result {
                Ok(write_error) => ProjectStoreView {
                    phase: StorePhaseView::Ready,
                    write_error: opt_text(write_error),
                    source_epoch: if old(self)@.source_epoch >= 1 { old(self)@.source_epoch } else { 1 },
                    ..old(self)@
                },
                Err(error) => ProjectStoreView { phase: StorePhaseView::Failed(error@), ..old(self)@ },
            }),
    {
        match result {
            Ok(write_error) => {
                self.write_error = write_error;
                self.phase = ProjectStorePhase::Ready;
                if self.source_epoch < 1 {
                    self.source_epoch = 1;
                }
            },
            Err(error) => self.phase = ProjectStorePhase::Failed(error),
        }
    }

    /// Records that the worker stopped.
    pub fn worker_stopped(&mut self)
        ensures
            final(self)@ == (ProjectStoreView {
                phase: StorePhaseView::Failed("project database worker stopped"@),
                ..old(self)@
            }),
    {
        self.phase = ProjectStorePhase::Failed(String::from_str("project database worker stopped"));
    }

    /// Records whether the source and runtime world-space catalogs agree.
    pub fn set_catalog_compatible(&mut self, compatible: bool)
        ensures
            final(self)@ == (ProjectStoreView { catalog_compatible: Some(compatible), ..old(self)@ }),
    {
        self.catalog_compatible = Some(compatible);
    }

    /// Sets the cell that environment-coverage windows centre on.
    pub fn focus_environment(&mut self, space: WorldSpaceId, cell: CellCoord)
        ensures
            final(self)@ == (ProjectStoreView { environment_focus: Some((space, cell)), ..old(self)@ }),
    {
        self.environment_focus = Some((space, cell));
    }

    /// Updates the wanted window from the viewpoint and the domains the active tool reads.
    /// Returns whether the loaded window was discarded, so that its records must be dropped.
    pub fn update_query_demand(&mut self, position: Option<(WorldSpaceId, CellCoord)>, domains: ProjectSourceDomains) -> (discarded: bool)
        ensures
            (!spec_queryable(old(self)@) || !(domains.cells || domains.objects || domains.environment_coverage)
                || position is None) ==> final(self)@ == old(self)@ && !discarded,
            (spec_queryable(old(self)@) && (domains.cells || domains.objects || domains.environment_coverage)
                && position is Some) ==> {
                let (space, cell) = position->0;
                let desired = ProjectQueryWindow {
                    space,
                    minimum: CellCoord {
                        x: clamp_i32(demand_center(old(self)@, space, cell, domains).x - SOURCE_RADIUS_CELLS),
                        z: clamp_i32(demand_center(old(self)@, space, cell, domains).z - SOURCE_RADIUS_CELLS),
                    },
                    maximum: CellCoord {
                        x: clamp_i32(demand_center(old(self)@, space, cell, domains).x + SOURCE_RADIUS_CELLS),
                        z: clamp_i32(demand_center(old(self)@, space, cell, domains).z + SOURCE_RADIUS_CELLS),
                    },
                };
                (final(self)@, discarded) == demand_model(old(self)@, desired, domains)
            },
    {
        match self.phase {
            ProjectStorePhase::Ready => {},
            _ => return false,
        }
        if self.catalog_compatible == Some(false) || !domains.any() {
            return false;
        }
        let (space, cell) = match position {
            Some(p) => p,
            None => return false,
        };
        let center = match self.environment_focus {
            Some((focus_space, focus_cell)) => if domains.environment_coverage && focus_space == space {
                focus_cell
            } else {
                cell
            },
            None => cell,
        };
        let desired = ProjectQueryWindow::around(space, center);
        if self.desired_window == Some(desired) && self.desired_domains == domains {
            return false;
        }
        let discard = match self.loaded_window {
            Some(loaded) => loaded.space != desired.space,
            None => false,
        } || self.loaded_domains != domains;
        if discard {
            self.loaded_window = None;
        }
        self.desired_window = Some(desired);
        self.desired_domains = domains;
        if self.failed_window != Some(desired) || self.failed_domains != domains {
            self.failed_window = None;
            self.failed_domains = ProjectSourceDomains { cells: false, objects: false, environment_coverage: false };
            self.query_error = None;
        }
        discard
    }

    /// The next window query to hand to the worker.
    pub fn next_query(&self) -> (q: Option<InFlightQuery>)
        ensures
            q == spec_next_query(self@),
    {
        match self.phase {
            ProjectStorePhase::Ready => {},
            _ => return None,
        }
        if self.catalog_compatible == Some(false) || self.in_flight.is_some() {
            return None;
        }
        let window = match self.desired_window {
            Some(w) => w,
            None => return None,
        };
        let domains = self.desired_domains;
        if (self.loaded_window == Some(window) && self.loaded_domains == domains)
            || (self.failed_window == Some(window) && self.failed_domains == domains) {
            return None;
        }
        Some(InFlightQuery { revision: bump(self.next_revision), window, domains })
    }

    /// Records what became of handing a query to the worker.
    pub fn query_dispatched(&mut self, query: InFlightQuery, outcome: SendOutcome)
        ensures
            final(self)@ == (match outcome {
                SendOutcome::Sent => ProjectStoreView {
                    next_revision: query.revision,
                    in_flight: Some(query),
                    ..old(self)@
                },
                SendOutcome::Full => old(self)@,
                SendOutcome::Disconnected => ProjectStoreView {
                    phase: StorePhaseView::Failed("project request channel closed"@),
                    ..old(self)@
                },
            }),
    {
        match outcome {
            SendOutcome::Sent => {
                self.next_revision = query.revision;
                self.in_flight = Some(query);
            },
            SendOutcome::Full => {},
            SendOutcome::Disconnected => {
                self.phase = ProjectStorePhase::Failed(String::from_str("project request channel closed"));
            },
        }
    }

    /// Receives a window query result; returns whether its snapshot is to be installed. A result
    /// for a window or domains that are no longer wanted is counted stale and dropped.
    pub fn receive_query(
        &mut self,
        revision: u64,
        window: ProjectQueryWindow,
        domains: ProjectSourceDomains,
        result: Result<(), String>,
    ) -> (install: bool)
        ensures
            (final(self)@, install) == receive_query_model(
                old(self)@,
                revision,
                window,
                domains,
                match result {
                    Ok(()) => Ok(()),
                    Err(e) => Err(e@),
                },
            ),
    {
        if self.in_flight == Some(InFlightQuery { revision, window, domains }) {
            self.in_flight = None;
        }
        if self.desired_window != Some(window) || self.desired_domains != domains {
            self.stale_results = self.stale_results.saturating_add(1);
            return false;
        }
        match result {
            Ok(()) => {
                self.loaded_window = Some(window);
                self.loaded_domains = domains;
                self.failed_window = None;
                self.failed_domains = ProjectSourceDomains { cells: false, objects: false, environment_coverage: false };
                self.query_error = None;
                self.completed_queries = self.completed_queries.saturating_add(1);
                true
            },
            Err(error) => {
                self.failed_window = Some(window);
                self.failed_domains = domains;
                self.query_error = Some(error);
                false
            },
        }
    }

    /// The phase of the store.
    pub fn phase(&self) -> (p: &ProjectStorePhase)
        ensures
            phase_view(*p) == self@.phase,
    {
        &self.phase
    }

    /// The window that is wanted.
    pub fn desired_window(&self) -> (w: Option<ProjectQueryWindow>)
        ensures
            w == self@.desired_window,
    {
        self.desired_window
    }

    /// The window whose records are loaded.
    pub fn loaded_window(&self) -> (w: Option<ProjectQueryWindow>)
        ensures
            w == self@.loaded_window,
    {
        self.loaded_window
    }

    /// Whether a window query is at the worker.
    pub fn query_in_flight(&self) -> (r: bool)
        ensures
            r == (self@.in_flight is Some),
    {
        self.in_flight.is_some()
    }

    /// The epoch of the saved source, advanced by every commit.
    pub fn source_epoch(&self) -> (e: u64)
        ensures
            e == self@.source_epoch,
    {
        self.source_epoch
    }

    /// How many window queries were installed.
    pub fn completed_queries(&self) -> (n: u64)
        ensures
            n == self@.completed_queries,
    {
        self.completed_queries
    }

    /// How many query results arrived for a window that was no longer wanted.
    pub fn stale_results(&self) -> (n: u64)
        ensures
            n == self@.stale_results,
    {
        self.stale_results
    }
}

/// What handing the pending save of a kind to the worker does to the state.
pub open spec fn save_dispatched_model(s: ProjectStoreView, kind: SaveKind, outcome: SendOutcome) -> ProjectStoreView {
    match outcome {
        SendOutcome::Full => s,
        SendOutcome::Sent => match kind {
            SaveKind::Atmosphere => match s.pending_atmosphere_save {
                Some(p) => ProjectStoreView {
                    pending_atmosphere_save: None,
                    atmosphere_save_in_flight: Some(p.0),
                    ..s
                },
                None => s,
            },
            SaveKind::Object => match s.pending_object_save {
                Some(id) => ProjectStoreView { pending_object_save: None, object_save_in_flight: Some(id), ..s },
                None => s,
            },
            SaveKind::Dense => match s.pending_dense_save {
                Some(id) => ProjectStoreView { pending_dense_save: None, dense_save_in_flight: Some(id), ..s },
                None => s,
            },
            SaveKind::Vegetation => match s.pending_vegetation_save {
                Some(id) => ProjectStoreView {
                    pending_vegetation_save: None,
                    vegetation_save_in_flight: Some(id),
                    ..s
                },
                None => s,
            },
        },
        SendOutcome::Disconnected => match kind {
            SaveKind::Atmosphere => ProjectStoreView { write_error: Some("Project writer stopped"@), ..s },
            _ => ProjectStoreView {
                phase: StorePhaseView::Failed("project request channel closed"@),
                ..s
            },
        },
    }
}

/// Only a successful result for the wanted window and domains is installed: a result for a
/// window or domains that are no longer wanted, or a failed one, leaves the loaded window and
/// domains as they were; an installed one becomes the loaded window. A result that is not
/// wanted is counted stale.
pub proof fn law_only_wanted_results_install(
    s: ProjectStoreView,
    revision: u64,
    window: ProjectQueryWindow,
    domains: ProjectSourceDomains,
    result: Result<(), Seq<char>>,
)
    ensures
        receive_query_model(s, revision, window, domains, result).1 <==> (s.desired_window == Some(window)
            && s.desired_domains == domains && result is Ok),
        receive_query_model(s, revision, window, domains, result).1 ==> receive_query_model(
            s,
            revision,
            window,
            domains,
            result,
        ).0.loaded_window == Some(window) && receive_query_model(s, revision, window, domains, result).0.loaded_domains
            == domains,
        !receive_query_model(s, revision, window, domains, result).1 ==> receive_query_model(
            s,
            revision,
            window,
            domains,
            result,
        ).0.loaded_window == s.loaded_window && receive_query_model(s, revision, window, domains, result).0.loaded_domains
            == s.loaded_domains,
        (s.desired_window != Some(window) || s.desired_domains != domains) ==> receive_query_model(
            s,
            revision,
            window,
            domains,
            result,
        ).0.stale_results == crate::jobs::saturating(s.stale_results, 1),
{
}

} // verus!
