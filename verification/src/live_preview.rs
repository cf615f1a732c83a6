//! The live terrain preview of applied source edits on the distant renderer: one cancellable
//! CPU worker and one GPU-staged revision. Each change of what the preview is built from
//! starts a new revision; only a result of the current revision is staged, and only a staged
//! revision that the renderer has made ready, without error, replaces the visible cells.
//! The resident cells the preview covers are the loaded ones nearest the camera, within a
//! budget of cells and bytes.

use vstd::prelude::*;

use crate::coverage::bumped;
use crate::objects::capped;
use crate::paint_input::contains_cell;
use crate::paint_preview::{filter_pairs, PreviewKey, MAX_PREVIEW_BYTES, MAX_PREVIEW_CELLS};
use crate::presets::{ascending, ascending_ids, insert_ascending, lemma_ascending_ids};
use crate::world::{CellCoord, WorldSpaceId};

verus! {

/// The Manhattan distance between two cells.
pub open spec fn cell_distance(a: CellCoord, b: CellCoord) -> int {
    (if a.x >= b.x {
        a.x - b.x
    } else {
        b.x - a.x
    }) + (if a.z >= b.z {
        a.z - b.z
    } else {
        b.z - a.z
    })
}

/// The order key of a resident cell: its distance from the camera's cell first, then its x and
/// its z coordinate.
pub open spec fn resident_key(c: CellCoord, center: CellCoord) -> u128 {
    (cell_distance(c, center) * 0x1_0000_0000_0000_0000 + (c.x + 0x8000_0000) * 0x1_0000_0000 + (c.z
        + 0x8000_0000)) as u128
}

/// The order keys of the loaded cells of a space.
pub open spec fn resident_keys(cells: Seq<(WorldSpaceId, CellCoord)>, space: WorldSpaceId, center: CellCoord) -> Set<
    u128,
> {
    Set::new(
        |k: u128| exists|i: int| 0 <= i < cells.len() && cells[i].0 == space && resident_key(cells[i].1, center) == k,
    )
}

fn key_of(c: CellCoord, center: CellCoord) -> (k: u128)
    ensures
        k == resident_key(c, center),
{
    let dx: i64 = if c.x >= center.x {
        c.x as i64 - center.x as i64
    } else {
        center.x as i64 - c.x as i64
    };
    let dz: i64 = if c.z >= center.z {
        c.z as i64 - center.z as i64
    } else {
        center.z as i64 - c.z as i64
    };
    let d = (dx + dz) as u128;
    let x = (c.x as i64 + 0x8000_0000) as u128;
    let z = (c.z as i64 + 0x8000_0000) as u128;
    d * 0x1_0000_0000_0000_0000 + x * 0x1_0000_0000 + z
}

/// The resident cells of the preview: the distinct loaded cells of the space, nearest the
/// camera's cell first (then by x, then by z), at most `limit` of them.
pub fn resident_cells(
    cells: &[(WorldSpaceId, CellCoord)],
    space: WorldSpaceId,
    center: CellCoord,
    limit: usize,
) -> (r: Vec<CellCoord>)
    ensures
        ({
            let keys = ascending_ids(resident_keys(cells@, space, center));
            &&& r@.len() == (if keys.len() < limit {
                keys.len() as int
            } else {
                limit as int
            })
            &&& forall|i: int| 0 <= i < r@.len() ==> resident_key(#[trigger] r@[i], center) == keys[i]
        }),
{
    let ghost s = resident_keys(cells@, space, center);
    let mut keys: Vec<u128> = Vec::new();
    let mut i: usize = 0;
    while i < cells.len()
        invariant
            i <= cells@.len(),
            ascending(keys@),
            forall|k: u128|
                keys@.contains(k) <==> (exists|j: int|
                    0 <= j < i && cells@[j].0 == space && resident_key(cells@[j].1, center) == k),
        decreases cells@.len() - i,
    {
        if cells[i].0 == space {
            let k = key_of(cells[i].1, center);
            keys = insert_ascending(keys, k);
            proof {
                assert forall|y: u128|
                    keys@.contains(y) <==> (exists|j: int|
                        0 <= j < i + 1 && cells@[j].0 == space && resident_key(cells@[j].1, center) == y) by {
                    if y == k {
                        assert(cells@[i as int].0 == space && resident_key(cells@[i as int].1, center) == y);
                    }
                }
            }
        } else {
            proof {
                assert forall|y: u128|
                    keys@.contains(y) <==> (exists|j: int|
                        0 <= j < i + 1 && cells@[j].0 == space && resident_key(cells@[j].1, center) == y) by {
                    if exists|j: int| 0 <= j < i + 1 && cells@[j].0 == space && resident_key(cells@[j].1, center) == y {
                        let j = choose|j: int|
                            0 <= j < i + 1 && cells@[j].0 == space && resident_key(cells@[j].1, center) == y;
                        assert(j < i);
                    }
                }
            }
        }
        i = i + 1;
    }
    proof {
        assert forall|y: u128| keys@.contains(y) <==> s.contains(y) by {}
        lemma_ascending_ids(keys@, s);
    }
    let n = if keys.len() < limit {
        keys.len()
    } else {
        limit
    };
    let mut r: Vec<CellCoord> = Vec::new();
    let mut q: usize = 0;
    while q < n
        invariant
            q <= n,
            n <= keys@.len(),
            keys@ == ascending_ids(s),
            s == resident_keys(cells@, space, center),
            forall|y: u128| keys@.contains(y) <==> s.contains(y),
            r@.len() == q,
            forall|t: int| 0 <= t < q ==> resident_key(#[trigger] r@[t], center) == keys@[t],
        decreases n - q,
    {
        let k = keys[q];
        assert(keys@.contains(k)) by {
            assert(keys@[q as int] == k);
        }
        let mut j: usize = 0;
        let mut found: Option<CellCoord> = None;
        while j < cells.len()
            invariant
                j <= cells@.len(),
                found matches Some(c) ==> resident_key(c, center) == k,
                found is None ==> forall|m: int|
                    0 <= m < j ==> !(cells@[m].0 == space && resident_key(cells@[m].1, center) == k),
            ensures
                found matches Some(c) ==> resident_key(c, center) == k,
                found is None ==> forall|m: int|
                    0 <= m < cells@.len() ==> !(cells@[m].0 == space && resident_key(cells@[m].1, center) == k),
            decreases cells@.len() - j,
        {
            if cells[j].0 == space && key_of(cells[j].1, center) == k {
                found = Some(cells[j].1);
                break;
            }
            j = j + 1;
        }
        let c = match found {
            Some(c) => c,
            None => {
                proof {
                    assert(s.contains(k));
                    let m = choose|m: int|
                        0 <= m < cells@.len() && cells@[m].0 == space && resident_key(cells@[m].1, center) == k;
                    assert(false);
                }
                center
            },
        };
        r.push(c);
        q = q + 1;
    }
    r
}

/// The cells a preview may cover: at most `MAX_PREVIEW_CELLS`, and few enough that their
/// products (weights at the terrain resolution, up to 64 vegetation fields, heights and
/// normals at the height resolution, and a fixed part) take at most half the byte budget; the
/// other half stays free for a pending catalog change.
pub open spec fn preview_cell_limit_of(terrain_resolution: int, fields: int, height_resolution: int) -> int {
    let per_cell = terrain_resolution * terrain_resolution * 4 + fields * 64 * 64 + height_resolution
        * height_resolution * 6 + 4096;
    let by_bytes = (MAX_PREVIEW_BYTES / 2) as int / per_cell;
    if by_bytes < MAX_PREVIEW_CELLS {
        by_bytes
    } else {
        MAX_PREVIEW_CELLS as int
    }
}

/// The cells a preview may cover (see `preview_cell_limit_of`), for the terrain resolution, the
/// number of vegetation fields (at most 64 count) and the height resolution.
pub fn preview_cell_limit(terrain_resolution: u16, fields: usize, height_resolution: u16) -> (n: usize)
    ensures
        n <= MAX_PREVIEW_CELLS,
        n == preview_cell_limit_of(
            terrain_resolution as int,
            if fields < 64 {
                fields as int
            } else {
                64
            },
            height_resolution as int,
        ),
{
    let f: u64 = if fields < 64 {
        fields as u64
    } else {
        64
    };
    let t = terrain_resolution as u64;
    let h = height_resolution as u64;
    assert(t * t <= 65535 * 65535) by (nonlinear_arith)
        requires
            t <= 65535,
    ;
    assert(h * h <= 65535 * 65535) by (nonlinear_arith)
        requires
            h <= 65535,
    ;
    let per_cell: u64 = t * t * 4 + f * 64 * 64 + h * h * 6 + 4096;
    let by_bytes = (MAX_PREVIEW_BYTES as u64 / 2) / per_cell;
    if by_bytes < MAX_PREVIEW_CELLS as u64 {
        by_bytes as usize
    } else {
        MAX_PREVIEW_CELLS
    }
}

/// What the preview is built from: the world space, the definition edit revision, the plant
/// catalog revision, the project source epoch, the runtime generation, the edit and road
/// revisions, and the resident cells.
#[derive(Debug)]
pub struct LiveSignature {
    pub space: WorldSpaceId,
    pub definition_revision: u64,
    pub plants_revision: u64,
    pub source_epoch: u64,
    pub generation: String,
    pub edit_revision: u64,
    pub roads_revision: u64,
    pub resident: Vec<CellCoord>,
}

/// A signature by value.
pub struct SignatureView {
    pub space: WorldSpaceId,
    pub definition_revision: u64,
    pub plants_revision: u64,
    pub source_epoch: u64,
    pub generation: Seq<char>,
    pub edit_revision: u64,
    pub roads_revision: u64,
    pub resident: Seq<CellCoord>,
}

impl View for LiveSignature {
    type V = SignatureView;

    open spec fn view(&self) -> SignatureView {
        SignatureView {
            space: self.space,
            definition_revision: self.definition_revision,
            plants_revision: self.plants_revision,
            source_epoch: self.source_epoch,
            generation: self.generation@,
            edit_revision: self.edit_revision,
            roads_revision: self.roads_revision,
            resident: self.resident@,
        }
    }
}

impl LiveSignature {
    /// Whether two signatures are equal in every field.
    pub fn same_as(&self, other: &LiveSignature) -> (r: bool)
        ensures
            r == (self@ == other@),
    {
        if self.space != other.space || self.definition_revision != other.definition_revision
            || self.plants_revision != other.plants_revision || self.source_epoch != other.source_epoch
            || self.edit_revision != other.edit_revision || self.roads_revision != other.roads_revision
            || self.generation != other.generation || self.resident.len() != other.resident.len() {
            assert(self@ != other@ || self@.resident.len() != other@.resident.len());
            return false;
        }
        let mut i: usize = 0;
        while i < self.resident.len()
            invariant
                i <= self.resident@.len(),
                self.resident@.len() == other.resident@.len(),
                forall|k: int| 0 <= k < i ==> self.resident@[k] == other.resident@[k],
            decreases self.resident@.len() - i,
        {
            if self.resident[i] != other.resident[i] {
                assert(self@.resident[i as int] != other@.resident[i as int]);
                return false;
            }
            i = i + 1;
        }
        assert(self@.resident =~= other@.resident);
        true
    }
}

/// A preview shown for another world space or runtime generation than the signature's must be
/// cleared.
pub open spec fn world_changes(accepted: Option<(WorldSpaceId, Seq<char>)>, s: SignatureView) -> bool {
    accepted matches Some(a) && (a.0 != s.space || a.1 != s.generation)
}

/// Whether the visible preview, built for `accepted` (its space and generation), must be
/// cleared under the new signature.
pub fn changes_world(accepted: Option<(WorldSpaceId, &String)>, signature: &LiveSignature) -> (r: bool)
    ensures
        r == world_changes(
            match accepted {
                Some(a) => Some((a.0, a.1@)),
                None => None,
            },
            signature@,
        ),
{
    match accepted {
        Some((space, generation)) => space != signature.space || *generation != signature.generation,
        None => false,
    }
}

/// The live preview's revision state: the current revision, the signature it was started
/// for, whether a job for it waits to be sent, whether a job is with the worker, and the
/// revision of a result staged on the renderer.
pub struct LivePreviewState {
    revision: u64,
    signature: Option<LiveSignature>,
    queued: bool,
    in_flight: bool,
    pending: Option<u64>,
}

/// The state by value.
pub struct LiveView {
    pub revision: u64,
    pub signature: Option<SignatureView>,
    pub queued: bool,
    pub in_flight: bool,
    pub pending: Option<u64>,
}

/// The state after taking in a signature: a changed one starts a new revision and drops the
/// staged result and the waiting job; an unchanged one changes nothing.
pub open spec fn observed(s: LiveView, signature: SignatureView) -> LiveView {
    if s.signature == Some(signature) {
        s
    } else {
        LiveView { revision: bumped(s.revision), signature: Some(signature), queued: false, pending: None, ..s }
    }
}

/// A worker result is staged when it is of the current revision and compiled.
pub open spec fn stages(s: LiveView, revision: u64, ok: bool) -> bool {
    revision == s.revision && ok
}

/// The state after a worker result: the worker is free again, and a staged result is pending.
pub open spec fn received(s: LiveView, revision: u64, ok: bool) -> LiveView {
    if stages(s, revision, ok) {
        LiveView { in_flight: false, pending: Some(revision), ..s }
    } else {
        LiveView { in_flight: false, ..s }
    }
}

impl View for LivePreviewState {
    type V = LiveView;

    closed spec fn view(&self) -> LiveView {
        LiveView {
            revision: self.revision,
            signature: match self.signature {
                Some(s) => Some(s@),
                None => None,
            },
            queued: self.queued,
            in_flight: self.in_flight,
            pending: self.pending,
        }
    }
}

impl LivePreviewState {
    /// Nothing started yet.
    pub fn new() -> (s: Self)
        ensures
            s@ == (LiveView { revision: 0, signature: None, queued: false, in_flight: false, pending: None }),
    {
        LivePreviewState { revision: 0, signature: None, queued: false, in_flight: false, pending: None }
    }

    /// The current revision.
    pub fn revision(&self) -> (r: u64)
        ensures
            r == self@.revision,
    {
        self.revision
    }

    /// The revision of the result staged on the renderer, if any.
    pub fn pending(&self) -> (r: Option<u64>)
        ensures
            r == self@.pending,
    {
        self.pending
    }

    /// Whether work for the preview is under way: a job waits, is with the worker, or a result
    /// is staged. The preview then shows one stable pending indicator.
    pub fn busy(&self) -> (r: bool)
        ensures
            r == (self@.queued || self@.in_flight || self@.pending is Some),
    {
        self.queued || self.in_flight || self.pending.is_some()
    }

    /// Takes in what the preview is built from now. A changed signature starts a new revision:
    /// the staged result and any waiting job are dropped (the worker is told of the new
    /// revision and abandons older work), and the visible cells are to be cleared exactly when
    /// `world_changed` (see `changes_world`). An unchanged signature changes nothing.
    pub fn observe(&mut self, signature: LiveSignature, world_changed: bool) -> (clear_visible: bool)
        ensures
            final(self)@ == observed(old(self)@, signature@),
            clear_visible == (old(self)@.signature != Some(signature@) && world_changed),
    {
        let same = match &self.signature {
            Some(s) => s.same_as(&signature),
            None => false,
        };
        if same {
            return false;
        }
        self.signature = Some(signature);
        let next = self.revision.wrapping_add(1);
        self.revision = if next < 1 {
            1
        } else {
            next
        };
        self.pending = None;
        self.queued = false;
        world_changed
    }

    /// A job for the current revision was built and waits to be sent.
    pub fn queue(&mut self)
        ensures
            final(self)@ == (LiveView { queued: true, ..old(self)@ }),
    {
        self.queued = true;
    }

    /// The revision of the waiting job to hand to the worker now, if any: only when no job is
    /// with the worker and the job has waited long enough (`settled`). The job leaves the
    /// queue; `sent` says whether the worker took it.
    pub fn dispatch(&mut self, settled: bool) -> (r: Option<u64>)
        ensures
            (old(self)@.in_flight || !settled || !old(self)@.queued) ==> r is None && final(self)@ == old(self)@,
            !(old(self)@.in_flight || !settled || !old(self)@.queued) ==> r == Some(old(self)@.revision)
                && final(self)@ == (LiveView { queued: false, ..old(self)@ }),
    {
        if self.in_flight || !settled || !self.queued {
            return None;
        }
        self.queued = false;
        Some(self.revision)
    }

    /// Whether the worker took the dispatched job.
    pub fn sent(&mut self, taken: bool)
        ensures
            final(self)@ == (LiveView { in_flight: taken, ..old(self)@ }),
    {
        self.in_flight = taken;
    }

    /// Takes in a worker result for `revision` (`ok` when it compiled). The worker is free
    /// again; a successful result of the current revision is to be staged on the renderer,
    /// and any other result is dropped.
    pub fn receive(&mut self, revision: u64, ok: bool) -> (stage: bool)
        ensures
            stage == stages(old(self)@, revision, ok),
            final(self)@ == received(old(self)@, revision, ok),
    {
        self.in_flight = false;
        if revision == self.revision && ok {
            self.pending = Some(revision);
            true
        } else {
            false
        }
    }

    /// Replaces the visible cells with the staged result when the renderer has it ready
    /// (`ready`), it is of the current revision, and the renderer reports no error; gives the
    /// committed revision.
    pub fn commit(&mut self, ready: Option<u64>, error: bool) -> (c: Option<u64>)
        ensures
            forall|r: u64|
                c == Some(r) <==> (old(self)@.pending == Some(r) && r == old(self)@.revision && ready == Some(r)
                    && !error),
            c is Some ==> final(self)@ == (LiveView { pending: None, ..old(self)@ }),
            c is None ==> final(self)@ == old(self)@,
    {
        match self.pending {
            Some(r) => {
                if ready == Some(r) && r == self.revision && !error {
                    self.pending = None;
                    Some(r)
                } else {
                    None
                }
            },
            None => None,
        }
    }
}

/// A worker result of the revision current before a change of the signature is never staged,
/// whatever the worker reports, and leaves nothing staged: results from before a change are
/// dropped.
pub proof fn law_results_from_before_a_change_are_dropped(s: LiveView, signature: SignatureView, ok: bool)
    requires
        s.signature != Some(signature),
    ensures
        !stages(observed(s, signature), s.revision, ok),
        received(observed(s, signature), s.revision, ok).pending is None,
        received(observed(s, signature), s.revision, ok).revision == observed(s, signature).revision,
{
}

/// A road-edit region: the cells from `minimum` to `maximum`, corners included.
#[derive(Clone, Copy, Debug, PartialEq, Eq)]
pub struct CellRegion {
    pub minimum: CellCoord,
    pub maximum: CellCoord,
}

/// A live preview recompiles regions of at most this many cells each.
pub const MAX_LIVE_REGION_CELLS: i128 = 4096;

/// At most this many objects are compiled for a live preview.
pub const MAX_LIVE_OBJECTS: usize = 4096;

/// The number of cells a region spans, by its corners.
pub open spec fn region_area(r: CellRegion) -> int {
    (r.maximum.x - r.minimum.x + 1) * (r.maximum.z - r.minimum.z + 1)
}

/// The cell lies in the region.
pub open spec fn in_region(r: CellRegion, c: CellCoord) -> bool {
    r.minimum.x <= c.x <= r.maximum.x && r.minimum.z <= c.z <= r.maximum.z
}

/// The order key of a cell: its x, then its z.
pub open spec fn cell_key(c: CellCoord) -> u128 {
    ((c.x + 0x8000_0000) * 0x1_0000_0000 + (c.z + 0x8000_0000)) as u128
}

/// The order keys of the cells of the regions.
pub open spec fn region_keys(regions: Seq<CellRegion>) -> Set<u128> {
    Set::new(
        |k: u128|
            exists|i: int, c: CellCoord| 0 <= i < regions.len() && in_region(regions[i], c) && cell_key(c) == k,
    )
}

/// Some region spans more than `MAX_LIVE_REGION_CELLS` cells.
pub open spec fn oversized(regions: Seq<CellRegion>) -> bool {
    exists|i: int| 0 <= i < regions.len() && region_area(#[trigger] regions[i]) > MAX_LIVE_REGION_CELLS
}

/// The cells covered so far: those of the first `i` regions, and those of region `i` before
/// column `x`, or in column `x` before row `z`.
pub open spec fn covered(regions: Seq<CellRegion>, i: int, x: int, z: int, c: CellCoord) -> bool {
    (exists|j: int| 0 <= j < i && in_region(#[trigger] regions[j], c)) || (i < regions.len() && in_region(
        regions[i],
        c,
    ) && (c.x < x || (c.x == x && c.z < z)))
}

proof fn lemma_cell_key_decodes(c: CellCoord)
    ensures
        cell_key(c) / 0x1_0000_0000 == c.x + 0x8000_0000,
        cell_key(c) % 0x1_0000_0000 == c.z + 0x8000_0000,
{
    let a: int = c.x + 0x8000_0000;
    let b: int = c.z + 0x8000_0000;
    assert(0 <= a * 0x1_0000_0000 + b < 0x1_0000_0000_0000_0000) by (nonlinear_arith)
        requires
            0 <= a < 0x1_0000_0000,
            0 <= b < 0x1_0000_0000,
    ;
    assert((a * 0x1_0000_0000 + b) / 0x1_0000_0000 == a && (a * 0x1_0000_0000 + b) % 0x1_0000_0000 == b)
        by (nonlinear_arith)
        requires
            0 <= a,
            0 <= b < 0x1_0000_0000,
    ;
}

fn cell_key_of(c: CellCoord) -> (k: u128)
    ensures
        k == cell_key(c),
{
    proof {
        lemma_cell_key_decodes(c);
    }
    let x = (c.x as i64 + 0x8000_0000) as u128;
    let z = (c.z as i64 + 0x8000_0000) as u128;
    x * 0x1_0000_0000 + z
}

fn region_area_of(r: &CellRegion) -> (a: i128)
    ensures
        a == region_area(*r),
{
    let w = r.maximum.x as i128 - r.minimum.x as i128 + 1;
    let h = r.maximum.z as i128 - r.minimum.z as i128 + 1;
    assert(-0x1_0000_0000_0000_0000 <= w * h <= 0x1_0000_0000_0000_0000) by (nonlinear_arith)
        requires
            -0x1_0000_0000 <= w <= 0x1_0000_0000,
            -0x1_0000_0000 <= h <= 0x1_0000_0000,
    ;
    w * h
}

/// The cells a live preview recompiles for road edits: every cell of the regions, each once,
/// in order of x, then z. A region of more than `MAX_LIVE_REGION_CELLS` cells refuses the
/// preview.
pub fn region_cells(regions: &[CellRegion]) -> (r: Result<Vec<CellCoord>, String>)
    ensures
        r is Err <==> oversized(regions@),
        r matches Err(m) ==> m@ == "Road edit exceeds the live terrain region budget; Save & Publish to continue"@,
        r matches Ok(cells) ==> {
            let keys = ascending_ids(region_keys(regions@));
            &&& cells@.len() == keys.len()
            &&& forall|t: int| 0 <= t < cells@.len() ==> cell_key(#[trigger] cells@[t]) == keys[t]
        },
{
    let mut i: usize = 0;
    while i < regions.len()
        invariant
            i <= regions@.len(),
            forall|j: int| 0 <= j < i ==> region_area(#[trigger] regions@[j]) <= MAX_LIVE_REGION_CELLS,
        decreases regions@.len() - i,
    {
        if region_area_of(&regions[i]) > MAX_LIVE_REGION_CELLS {
            assert(region_area(regions@[i as int]) > MAX_LIVE_REGION_CELLS);
            return Err(
                String::from_str("Road edit exceeds the live terrain region budget; Save & Publish to continue"),
            );
        }
        i = i + 1;
    }
    let ghost rs = regions@;
    let mut keys: Vec<u128> = Vec::new();
    let mut i: usize = 0;
    while i < regions.len()
        invariant
            rs == regions@,
            i <= rs.len(),
            ascending(keys@),
            forall|y: u128|
                keys@.contains(y) <==> exists|c: CellCoord| covered(rs, i as int, i32::MIN as int, i32::MIN as int, c)
                    && cell_key(c) == y,
        decreases rs.len() - i,
    {
        let r = regions[i];
        let mut x: i64 = r.minimum.x as i64;
        proof {
            assert forall|c: CellCoord| covered(rs, i as int, x as int, i32::MIN as int, c) == covered(
                rs,
                i as int,
                i32::MIN as int,
                i32::MIN as int,
                c,
            ) by {}
        }
        while x <= r.maximum.x as i64
            invariant
                rs == regions@,
                i < rs.len(),
                r == rs[i as int],
                r.minimum.x <= x,
                x <= r.maximum.x as i64 + 1 || x == r.minimum.x,
                ascending(keys@),
                forall|y: u128|
                    keys@.contains(y) <==> exists|c: CellCoord| covered(rs, i as int, x as int, i32::MIN as int, c)
                        && cell_key(c) == y,
            decreases r.maximum.x as i64 + 1 - x,
        {
            let mut z: i64 = r.minimum.z as i64;
            proof {
                assert forall|c: CellCoord| covered(rs, i as int, x as int, z as int, c) == covered(
                    rs,
                    i as int,
                    x as int,
                    i32::MIN as int,
                    c,
                ) by {}
            }
            while z <= r.maximum.z as i64
                invariant
                    rs == regions@,
                    i < rs.len(),
                    r == rs[i as int],
                    r.minimum.x <= x <= r.maximum.x,
                    r.minimum.z <= z,
                    z <= r.maximum.z as i64 + 1 || z == r.minimum.z,
                    ascending(keys@),
                    forall|y: u128|
                        keys@.contains(y) <==> exists|c: CellCoord| covered(rs, i as int, x as int, z as int, c)
                            && cell_key(c) == y,
                decreases r.maximum.z as i64 + 1 - z,
            {
                let cell = CellCoord { x: x as i32, z: z as i32 };
                let k = cell_key_of(cell);
                keys = insert_ascending(keys, k);
                proof {
                    assert forall|y: u128|
                        keys@.contains(y) <==> exists|c: CellCoord| covered(rs, i as int, x as int, z + 1, c)
                            && cell_key(c) == y by {
                        if y == k {
                            assert(covered(rs, i as int, x as int, z + 1, cell));
                        }
                        if exists|c: CellCoord| covered(rs, i as int, x as int, z + 1, c) && cell_key(c) == y {
                            let c = choose|c: CellCoord| covered(rs, i as int, x as int, z + 1, c) && cell_key(c) == y;
                            if c != cell {
                                assert(covered(rs, i as int, x as int, z as int, c));
                            }
                        }
                    }
                }
                z = z + 1;
            }
            proof {
                assert forall|y: u128|
                    keys@.contains(y) <==> exists|c: CellCoord| covered(rs, i as int, x + 1, i32::MIN as int, c)
                        && cell_key(c) == y by {
                    if exists|c: CellCoord| covered(rs, i as int, x + 1, i32::MIN as int, c) && cell_key(c) == y {
                        let c = choose|c: CellCoord| covered(rs, i as int, x + 1, i32::MIN as int, c) && cell_key(c) == y;
                        assert(covered(rs, i as int, x as int, z as int, c));
                    }
                    if exists|c: CellCoord| covered(rs, i as int, x as int, z as int, c) && cell_key(c) == y {
                        let c = choose|c: CellCoord| covered(rs, i as int, x as int, z as int, c) && cell_key(c) == y;
                        assert(covered(rs, i as int, x + 1, i32::MIN as int, c));
                    }
                }
            }
            x = x + 1;
        }
        proof {
            assert forall|y: u128|
                keys@.contains(y) <==> exists|c: CellCoord| covered(rs, i + 1, i32::MIN as int, i32::MIN as int, c)
                    && cell_key(c) == y by {
                if exists|c: CellCoord| covered(rs, i + 1, i32::MIN as int, i32::MIN as int, c) && cell_key(c) == y {
                    let c = choose|c: CellCoord| covered(rs, i + 1, i32::MIN as int, i32::MIN as int, c) && cell_key(c) == y;
                    if !(exists|j: int| 0 <= j < i && in_region(#[trigger] rs[j], c)) {
                        let j = choose|j: int| 0 <= j < i + 1 && in_region(#[trigger] rs[j], c);
                        assert(j == i);
                    }
                    assert(covered(rs, i as int, x as int, i32::MIN as int, c));
                }
                if exists|c: CellCoord| covered(rs, i as int, x as int, i32::MIN as int, c) && cell_key(c) == y {
                    let c = choose|c: CellCoord| covered(rs, i as int, x as int, i32::MIN as int, c) && cell_key(c) == y;
                    if exists|j: int| 0 <= j < i && in_region(#[trigger] rs[j], c) {
                        let j = choose|j: int| 0 <= j < i && in_region(#[trigger] rs[j], c);
                        assert(0 <= j < i + 1 && in_region(rs[j], c));
                    } else {
                        assert(in_region(rs[i as int], c));
                    }
                    assert(covered(rs, i + 1, i32::MIN as int, i32::MIN as int, c));
                }
            }
        }
        i = i + 1;
    }
    let ghost s = region_keys(rs);
    proof {
        assert forall|y: u128| keys@.contains(y) <==> s.contains(y) by {
            if keys@.contains(y) {
                let c = choose|c: CellCoord| covered(rs, i as int, i32::MIN as int, i32::MIN as int, c) && cell_key(c) == y;
                let j = choose|j: int| 0 <= j < i && in_region(#[trigger] rs[j], c);
                assert(0 <= j < rs.len() && in_region(rs[j], c) && cell_key(c) == y);
            }
            if s.contains(y) {
                let (j, c) = choose|j: int, c: CellCoord| 0 <= j < rs.len() && in_region(rs[j], c) && cell_key(c) == y;
                assert(covered(rs, i as int, i32::MIN as int, i32::MIN as int, c));
            }
        }
        lemma_ascending_ids(keys@, s);
    }
    let mut out: Vec<CellCoord> = Vec::new();
    let mut q: usize = 0;
    while q < keys.len()
        invariant
            q <= keys@.len(),
            keys@ == ascending_ids(s),
            forall|y: u128| keys@.contains(y) <==> s.contains(y),
            s == region_keys(rs),
            out@.len() == q,
            forall|t: int| 0 <= t < q ==> cell_key(#[trigger] out@[t]) == keys@[t],
        decreases keys@.len() - q,
    {
        let k = keys[q];
        proof {
            assert(keys@.contains(k)) by {
                assert(keys@[q as int] == k);
            }
            assert(s.contains(k));
        }
        let ghost found = choose|j: int, c: CellCoord| 0 <= j < rs.len() && in_region(rs[j], c) && cell_key(c) == k;
        let ghost c = found.1;
        proof {
            lemma_cell_key_decodes(c);
        }
        let hi = (k / 0x1_0000_0000) as i64 - 0x8000_0000;
        let lo = (k % 0x1_0000_0000) as i64 - 0x8000_0000;
        let cell = CellCoord { x: hi as i32, z: lo as i32 };
        assert(cell == c);
        out.push(cell);
        q = q + 1;
    }
    Ok(out)
}

/// The cells a shared edit affects may number at most `MAX_PREVIEW_CELLS`; the walk over them
/// stops once it finds more.
pub fn check_shared_cells(count: usize) -> (r: Result<(), String>)
    ensures
        r is Ok <==> count <= MAX_PREVIEW_CELLS,
        r matches Err(m) ==> m@
            == "This shared edit affects more than 256 terrain cells. Save & Publish to update the whole landscape; the previous live preview is retained."@,
{
    if count > MAX_PREVIEW_CELLS {
        return Err(
            String::from_str(
                "This shared edit affects more than 256 terrain cells. Save & Publish to update the whole landscape; the previous live preview is retained.",
            ),
        );
    }
    Ok(())
}

/// The running totals of a live compile: the cells compiled, and their product bytes and
/// objects (each sum saturating at the largest `usize`).
#[derive(Clone, Copy, Debug, PartialEq, Eq)]
pub struct LiveBudget {
    pub cells: usize,
    pub bytes: usize,
    pub objects: usize,
}

impl LiveBudget {
    /// Nothing compiled yet.
    pub fn new() -> (b: Self)
        ensures
            b == (LiveBudget { cells: 0, bytes: 0, objects: 0 }),
    {
        LiveBudget { cells: 0, bytes: 0, objects: 0 }
    }

    /// Whether another cell may be compiled: not once `MAX_PREVIEW_CELLS` are.
    pub fn allow_cell(&self) -> (r: Result<(), String>)
        ensures
            r is Ok <==> self.cells < MAX_PREVIEW_CELLS,
            r matches Err(m) ==> m@ == "Live terrain exceeds 256 affected/source cells; Save & Publish to continue"@,
    {
        if self.cells >= MAX_PREVIEW_CELLS {
            return Err(String::from_str("Live terrain exceeds 256 affected/source cells; Save & Publish to continue"));
        }
        Ok(())
    }

    /// Counts a compiled cell with its product bytes and objects; refuses the preview when the
    /// bytes pass half of `MAX_PREVIEW_BYTES` or the objects pass `MAX_LIVE_OBJECTS`. The
    /// totals grow either way; the cell counts only when it is taken.
    pub fn charge(&mut self, bytes: usize, objects: usize) -> (r: Result<(), String>)
        ensures
            final(self).bytes == capped(old(self).bytes + bytes),
            final(self).objects == capped(old(self).objects + objects),
            r is Ok <==> (final(self).bytes <= MAX_PREVIEW_BYTES / 2 && final(self).objects <= MAX_LIVE_OBJECTS),
            r is Ok ==> final(self).cells == capped(old(self).cells + 1),
            r is Err ==> final(self).cells == old(self).cells,
            r matches Err(m) ==> m@
                == "Live source preview exceeds its memory/object budget; reduce the edited region or Save & Publish"@,
    {
        self.bytes = self.bytes.saturating_add(bytes);
        self.objects = self.objects.saturating_add(objects);
        if self.bytes > MAX_PREVIEW_BYTES / 2 || self.objects > MAX_LIVE_OBJECTS {
            return Err(
                String::from_str(
                    "Live source preview exceeds its memory/object budget; reduce the edited region or Save & Publish",
                ),
            );
        }
        self.cells = self.cells.saturating_add(1);
        Ok(())
    }
}

/// A committed cell is shown when it is of the origin's space and among the resident cells of
/// the signature.
pub open spec fn shown_cell<V>(space: WorldSpaceId, resident: Seq<CellCoord>) -> spec_fn((PreviewKey, V)) -> bool {
    |p: (PreviewKey, V)| p.0.0 == space && resident.contains(p.0.1)
}

/// The cells a commit makes visible: those of the committed result that are of the origin's
/// space and resident, in the result's order.
pub fn shown_cells<V>(cells: Vec<(PreviewKey, V)>, space: WorldSpaceId, resident: &[CellCoord]) -> (r: Vec<(PreviewKey, V)>)
    ensures
        r@ == filter_pairs(cells@, shown_cell::<V>(space, resident@)),
{
    let ghost all = cells@;
    let mut cells = cells;
    let mut out: Vec<(PreviewKey, V)> = Vec::new();
    let ghost mut n: int = 0;
    while cells.len() > 0
        invariant
            0 <= n <= all.len(),
            cells@ == all.skip(n),
            out@ == filter_pairs(all.take(n), shown_cell::<V>(space, resident@)),
        decreases cells@.len(),
    {
        let p = cells.remove(0);
        proof {
            assert(all[n] == p);
            assert(all.skip(n + 1) =~= all.skip(n).drop_first());
            assert(all.take(n + 1).drop_last() =~= all.take(n));
            assert(all.take(n + 1).last() == p);
        }
        let shown = p.0.0 == space && contains_cell(resident, p.0.1);
        if shown {
            out.push(p);
        }
        proof {
            n = n + 1;
        }
    }
    proof {
        assert(all.take(n) =~= all);
    }
    out
}

} // verus!
