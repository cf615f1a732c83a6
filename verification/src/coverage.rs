//! The bounded working set of environment coverage records: per cell, the database checkpoint,
//! the local value and the cooked runtime baseline are kept apart, and a record survives
//! spatial-query eviction while it is dirty, saving, or newer than the active runtime
//! generation.

use vstd::prelude::*;

use crate::layers::LayerId;
use crate::project_store::{can_queue_save, next_id, ProjectEditorStore, ProjectStoreView};
use crate::ranked::{law_sort_by_rank_orders, sort_by_rank, sort_ranked, Rank};
use crate::text::{append_decimal, decimal};
use crate::stamps::{CoverageTile, EnvironmentCellRecord};
use crate::world::{CellCoord, WorldSpaceId};

verus! {

/// At most this many dense records are written by one transaction.
pub const MAX_DENSE_DOMAIN_WRITES_PER_TRANSACTION: usize = 64;

/// At most this many bytes of dirty coverage wait for one save.
pub const MAX_DIRTY_COVERAGE_BYTES: usize = 3145728;

/// At most this many bytes of coverage are retained (checkpoints, local values, baselines).
pub const MAX_RETAINED_COVERAGE_BYTES: usize = 33554432;

/// At most this many cells are held.
pub const MAX_COVERAGE_ENTRIES: usize = 512;

/// The identity of a coverage record: its world space and cell.
pub type CoverageKey = (WorldSpaceId, CellCoord);

/// A coverage tile by value: its layer and samples.
pub type TileView = (LayerId, Seq<u8>);

/// A coverage record by value.
pub struct RecordView {
    pub space: WorldSpaceId,
    pub cell: CellCoord,
    pub source_revision: i64,
    pub definition_revision: u64,
    pub tiles: Seq<TileView>,
}

/// The tiles by value.
pub open spec fn tiles_view(t: Seq<CoverageTile>) -> Seq<TileView> {
    t.map_values(|x: CoverageTile| (x.layer, x.samples@))
}

/// A record by value.
pub open spec fn rv(r: EnvironmentCellRecord) -> RecordView {
    RecordView {
        space: r.space,
        cell: r.cell,
        source_revision: r.source_revision,
        definition_revision: r.definition_revision,
        tiles: tiles_view(r.tiles@),
    }
}

/// An optional record by value.
pub open spec fn orv(r: Option<EnvironmentCellRecord>) -> Option<RecordView> {
    match r {
        Some(x) => Some(rv(x)),
        None => None,
    }
}

/// The key of a record.
pub open spec fn key_of(r: RecordView) -> CoverageKey {
    (r.space, r.cell)
}

/// Where the save of one cell stands.
#[derive(Debug)]
pub enum DenseSaveState {
    Idle,
    Saving(u64),
    /// The database holds another record (or none) than the save expected.
    Conflict(Option<EnvironmentCellRecord>),
    Failed(String),
}

/// Where the save of one cell stands, by value.
pub enum SaveStateView {
    Idle,
    Saving(u64),
    Conflict(Option<RecordView>),
    Failed(Seq<char>),
}

/// The save state by value.
pub open spec fn sv(s: DenseSaveState) -> SaveStateView {
    match s {
        DenseSaveState::Idle => SaveStateView::Idle,
        DenseSaveState::Saving(id) => SaveStateView::Saving(id),
        DenseSaveState::Conflict(actual) => SaveStateView::Conflict(orv(actual)),
        DenseSaveState::Failed(e) => SaveStateView::Failed(e@),
    }
}

/// The checkpoint, local value and runtime baseline of one cell.
#[derive(Debug)]
pub struct DenseEditEntry {
    pub base: Option<EnvironmentCellRecord>,
    pub current: EnvironmentCellRecord,
    pub runtime: Option<EnvironmentCellRecord>,
    pub save_state: DenseSaveState,
}

/// One cell's entry by value.
pub struct EntryView {
    pub base: Option<RecordView>,
    pub current: RecordView,
    pub runtime: Option<RecordView>,
    pub state: SaveStateView,
}

/// An entry by value.
pub open spec fn ev(e: DenseEditEntry) -> EntryView {
    EntryView { base: orv(e.base), current: rv(e.current), runtime: orv(e.runtime), state: sv(e.save_state) }
}

/// A recovery snapshot of one dirty cell.
#[derive(Debug)]
pub struct DirtyDenseSnapshot {
    pub base: Option<EnvironmentCellRecord>,
    pub current: EnvironmentCellRecord,
    pub runtime: Option<EnvironmentCellRecord>,
}

/// The abstract state of the working set.
pub struct CoverageView {
    pub entries: Seq<EntryView>,
    pub edit_revision: u64,
    pub last_completed_query: u64,
    pub gesture_active: bool,
}

/// Whether a checkpoint holds the same coverage as a local value: the same cell, definition
/// revision and tiles; an absent checkpoint matches a record without tiles.
pub open spec fn same_content(base: Option<RecordView>, current: RecordView) -> bool {
    match base {
        Some(b) => b.space == current.space && b.cell == current.cell && b.definition_revision
            == current.definition_revision && b.tiles == current.tiles,
        None => current.tiles.len() == 0,
    }
}

/// Whether two records are of the same cell and definition revision.
pub open spec fn same_shape(a: RecordView, b: RecordView) -> bool {
    a.space == b.space && a.cell == b.cell && a.definition_revision == b.definition_revision
}

/// The local value differs from the checkpoint.
pub open spec fn is_dirty(e: EntryView) -> bool {
    !same_content(e.base, e.current)
}

/// The local value differs from the runtime baseline.
pub open spec fn runtime_diverged(e: EntryView) -> bool {
    !same_content(e.runtime, e.current)
}

/// The entry must stay though the area is no longer loaded.
pub open spec fn is_pinned(e: EntryView) -> bool {
    is_dirty(e) || runtime_diverged(e) || e.state is Saving
}

/// The number of entries that satisfy `p`.
pub open spec fn count_where(s: Seq<EntryView>, p: spec_fn(EntryView) -> bool) -> nat
    decreases s.len(),
{
    if s.len() == 0 {
        0
    } else {
        count_where(s.drop_last(), p) + if p(s.last()) {
            1nat
        } else {
            0nat
        }
    }
}

/// Some entry satisfies `p`.
pub open spec fn any_where(s: Seq<EntryView>, p: spec_fn(EntryView) -> bool) -> bool {
    exists|i: int| 0 <= i < s.len() && p(#[trigger] s[i])
}

/// The entry's save is in flight.
pub open spec fn is_saving(e: EntryView) -> bool {
    e.state is Saving
}

/// The entry is in conflict with the database.
pub open spec fn is_conflict(e: EntryView) -> bool {
    e.state is Conflict
}

/// The conflict can be settled by taking the database record: it is of the same shape.
pub open spec fn acceptable_conflict(e: EntryView) -> bool {
    e.state matches SaveStateView::Conflict(Some(actual)) && same_shape(actual, e.current)
}

/// The conflict can be settled by keeping the local value: the record vanished, or the
/// database record is of the same shape.
pub open spec fn keepable_conflict(e: EntryView) -> bool {
    match e.state {
        SaveStateView::Conflict(None) => true,
        SaveStateView::Conflict(Some(actual)) => same_shape(actual, e.current),
        _ => false,
    }
}

/// No two entries are of one cell.
pub open spec fn coverage_inv(s: CoverageView) -> bool {
    forall|i: int, j: int|
        0 <= i < s.entries.len() && 0 <= j < s.entries.len() && i != j ==> key_of(
            s.entries[i].current,
        ) != key_of(s.entries[j].current)
}

/// The position of the entry of a cell, if any.
pub open spec fn has_cell(s: Seq<EntryView>, k: CoverageKey) -> bool {
    exists|i: int| 0 <= i < s.len() && key_of(s[i].current) == k
}

/// The entry of a cell (meaningful when there is one).
pub open spec fn entry_at(s: Seq<EntryView>, k: CoverageKey) -> EntryView {
    s[choose|i: int| 0 <= i < s.len() && key_of(s[i].current) == k]
}

/// The entry a record starts with when it is loaded: a record the database holds (positive
/// revision) is its own checkpoint and runtime baseline; an absent one has neither.
pub open spec fn loaded_entry(r: RecordView) -> EntryView {
    EntryView {
        base: if r.source_revision > 0 {
            Some(r)
        } else {
            None
        },
        current: r,
        runtime: if r.source_revision > 0 {
            Some(r)
        } else {
            None
        },
        state: SaveStateView::Idle,
    }
}

/// The entries after putting an entry under its cell: it replaces the entry of that cell, or
/// is appended.
pub open spec fn put_entry(s: Seq<EntryView>, e: EntryView) -> Seq<EntryView> {
    if has_cell(s, key_of(e.current)) {
        s.update(
            choose|i: int| 0 <= i < s.len() && key_of(s[i].current) == key_of(e.current),
            e,
        )
    } else {
        s.push(e)
    }
}

/// The entries when each record is loaded in turn.
pub open spec fn loaded_entries(records: Seq<RecordView>) -> Seq<EntryView>
    decreases records.len(),
{
    if records.len() == 0 {
        Seq::empty()
    } else {
        put_entry(loaded_entries(records.drop_last()), loaded_entry(records.last()))
    }
}

/// The revision after a change: one more, wrapping, never zero.
pub open spec fn bumped(r: u64) -> u64 {
    if r == u64::MAX {
        1
    } else {
        (r + 1) as u64
    }
}

/// The working set of coverage records.
pub struct CoverageWorkingSet {
    entries: Vec<DenseEditEntry>,
    last_completed_query: u64,
    edit_revision: u64,
    gesture_active: bool,
}

impl View for CoverageWorkingSet {
    type V = CoverageView;

    closed spec fn view(&self) -> CoverageView {
        CoverageView {
            entries: self.entries@.map_values(|e: DenseEditEntry| ev(e)),
            edit_revision: self.edit_revision,
            last_completed_query: self.last_completed_query,
            gesture_active: self.gesture_active,
        }
    }
}

fn copy_samples(s: &Vec<u8>) -> (r: Vec<u8>)
    ensures
        r@ == s@,
{
    let mut r: Vec<u8> = Vec::new();
    let mut i: usize = 0;
    while i < s.len()
        invariant
            i <= s@.len(),
            r@ == s@.take(i as int),
        decreases s@.len() - i,
    {
        r.push(s[i]);
        proof {
            assert(s@.take(i + 1) =~= s@.take(i as int).push(s@[i as int]));
        }
        i = i + 1;
    }
    proof {
        assert(s@.take(i as int) =~= s@);
    }
    r
}

/// A copy of a record.
pub fn copy_record(r: &EnvironmentCellRecord) -> (c: EnvironmentCellRecord)
    ensures
        rv(c) == rv(*r),
{
    let mut tiles: Vec<CoverageTile> = Vec::new();
    let mut i: usize = 0;
    while i < r.tiles.len()
        invariant
            i <= r.tiles@.len(),
            tiles_view(tiles@) == tiles_view(r.tiles@.take(i as int)),
        decreases r.tiles@.len() - i,
    {
        let t = &r.tiles[i];
        tiles.push(CoverageTile { layer: t.layer, samples: copy_samples(&t.samples) });
        proof {
            assert(tiles_view(r.tiles@.take(i + 1)) =~= tiles_view(r.tiles@.take(i as int)).push(
                (t.layer, t.samples@),
            ));
            assert(tiles_view(tiles@) =~= tiles_view(r.tiles@.take(i + 1)));
        }
        i = i + 1;
    }
    proof {
        assert(r.tiles@.take(i as int) =~= r.tiles@);
    }
    EnvironmentCellRecord {
        space: r.space,
        cell: r.cell,
        source_revision: r.source_revision,
        definition_revision: r.definition_revision,
        tiles,
    }
}

fn copy_option(r: &Option<EnvironmentCellRecord>) -> (c: Option<EnvironmentCellRecord>)
    ensures
        orv(c) == orv(*r),
{
    match r {
        Some(x) => Some(copy_record(x)),
        None => None,
    }
}

fn same_samples(a: &Vec<u8>, b: &Vec<u8>) -> (r: bool)
    ensures
        r == (a@ == b@),
{
    if a.len() != b.len() {
        return false;
    }
    let mut i: usize = 0;
    while i < a.len()
        invariant
            a@.len() == b@.len(),
            i <= a@.len(),
            forall|k: int| 0 <= k < i ==> a@[k] == b@[k],
        decreases a@.len() - i,
    {
        if a[i] != b[i] {
            return false;
        }
        i = i + 1;
    }
    proof {
        assert(a@ =~= b@);
    }
    true
}

/// Whether two tile lists hold the same coverage, tile by tile.
pub fn same_tiles(a: &Vec<CoverageTile>, b: &Vec<CoverageTile>) -> (r: bool)
    ensures
        r == (tiles_view(a@) == tiles_view(b@)),
{
    if a.len() != b.len() {
        proof {
            assert(tiles_view(a@).len() != tiles_view(b@).len());
        }
        return false;
    }
    let mut i: usize = 0;
    while i < a.len()
        invariant
            a@.len() == b@.len(),
            i <= a@.len(),
            forall|k: int| 0 <= k < i ==> tiles_view(a@)[k] == tiles_view(b@)[k],
        decreases a@.len() - i,
    {
        if !(a[i].layer == b[i].layer) || !same_samples(&a[i].samples, &b[i].samples) {
            proof {
                assert(tiles_view(a@)[i as int] != tiles_view(b@)[i as int]);
            }
            return false;
        }
        i = i + 1;
    }
    proof {
        assert(tiles_view(a@) =~= tiles_view(b@));
    }
    true
}

/// Whether a checkpoint holds the same coverage as a local value.
pub fn same_dense_content(base: &Option<EnvironmentCellRecord>, current: &EnvironmentCellRecord) -> (r: bool)
    ensures
        r == same_content(orv(*base), rv(*current)),
{
    match base {
        Some(b) => b.space == current.space && b.cell == current.cell && b.definition_revision
            == current.definition_revision && same_tiles(&b.tiles, &current.tiles),
        None => current.tiles.len() == 0,
    }
}

/// Whether two records are of the same cell and definition revision.
pub fn same_dense_shape(a: &EnvironmentCellRecord, b: &EnvironmentCellRecord) -> (r: bool)
    ensures
        r == same_shape(rv(*a), rv(*b)),
{
    a.space == b.space && a.cell == b.cell && a.definition_revision == b.definition_revision
}

fn same_record(a: &Option<EnvironmentCellRecord>, b: &Option<EnvironmentCellRecord>) -> (r: bool)
    ensures
        r == (orv(*a) == orv(*b)),
{
    match (a, b) {
        (Some(x), Some(y)) => {
            let same = x.space == y.space && x.cell == y.cell && x.source_revision == y.source_revision
                && x.definition_revision == y.definition_revision && same_tiles(&x.tiles, &y.tiles);
            proof {
                if same {
                    assert(rv(*x) == rv(*y));
                }
            }
            same
        },
        (None, None) => true,
        _ => false,
    }
}

fn entry_dirty(e: &DenseEditEntry) -> (r: bool)
    ensures
        r == is_dirty(ev(*e)),
{
    !same_dense_content(&e.base, &e.current)
}

fn entry_diverged(e: &DenseEditEntry) -> (r: bool)
    ensures
        r == runtime_diverged(ev(*e)),
{
    !same_dense_content(&e.runtime, &e.current)
}

fn entry_pinned(e: &DenseEditEntry) -> (r: bool)
    ensures
        r == is_pinned(ev(*e)),
{
    entry_dirty(e) || entry_diverged(e) || match e.save_state {
        DenseSaveState::Saving(_) => true,
        _ => false,
    }
}

proof fn lemma_unique_index(s: Seq<EntryView>, i: int)
    requires
        forall|a: int, b: int|
            0 <= a < s.len() && 0 <= b < s.len() && a != b ==> key_of(s[a].current) != key_of(
                s[b].current,
            ),
        0 <= i < s.len(),
    ensures
        has_cell(s, key_of(s[i].current)),
        (choose|j: int| 0 <= j < s.len() && key_of(s[j].current) == key_of(s[i].current)) == i,
        entry_at(s, key_of(s[i].current)) == s[i],
{
    assert(0 <= i < s.len() && key_of(s[i].current) == key_of(s[i].current));
}

/// The count of entries satisfying `p` in a prefix grows by the next entry.
proof fn lemma_count_step(s: Seq<EntryView>, i: int, p: spec_fn(EntryView) -> bool)
    requires
        0 <= i < s.len(),
    ensures
        count_where(s.take(i + 1), p) == count_where(s.take(i), p) + if p(s[i]) {
            1nat
        } else {
            0nat
        },
{
    assert(s.take(i + 1).drop_last() =~= s.take(i));
}

proof fn lemma_count_bound(s: Seq<EntryView>, p: spec_fn(EntryView) -> bool)
    ensures
        count_where(s, p) <= s.len(),
    decreases s.len(),
{
    if s.len() > 0 {
        lemma_count_bound(s.drop_last(), p);
    }
}

/// The entries that the count of a kind covers: dirty, in conflict, diverged from the runtime,
/// or either of the first and third.
pub open spec fn counted(which: u8) -> spec_fn(EntryView) -> bool {
    |e: EntryView|
        if which == 0 {
            is_dirty(e)
        } else if which == 1 {
            is_conflict(e)
        } else if which == 2 {
            runtime_diverged(e)
        } else {
            is_dirty(e) || runtime_diverged(e)
        }
}

/// The entries that a search of a kind looks for: saving, in conflict, with an acceptable or
/// a keepable conflict.
pub open spec fn found(which: u8) -> spec_fn(EntryView) -> bool {
    |e: EntryView|
        if which == 0 {
            is_saving(e)
        } else if which == 1 {
            is_conflict(e)
        } else if which == 2 {
            acceptable_conflict(e)
        } else {
            keepable_conflict(e)
        }
}

impl CoverageWorkingSet {
    /// The internal invariant: no two entries are of one cell.
    pub open spec fn wf(&self) -> bool {
        coverage_inv(self@)
    }

    proof fn lemma_view_index(&self, i: int)
        requires
            0 <= i < self.entries@.len(),
        ensures
            self@.entries[i] == ev(self.entries@[i]),
            self@.entries.len() == self.entries@.len(),
    {
    }

    /// An empty working set.
    pub fn new() -> (s: Self)
        ensures
            s.wf(),
            s@.entries.len() == 0,
            s@.edit_revision == 0,
            s@.last_completed_query == 0,
            !s@.gesture_active,
    {
        let s = CoverageWorkingSet {
            entries: Vec::new(),
            last_completed_query: 0,
            edit_revision: 0,
            gesture_active: false,
        };
        assert(s@.entries =~= Seq::<EntryView>::empty());
        s
    }

    /// The position of the entry of a cell.
    fn find(&self, space: WorldSpaceId, cell: CellCoord) -> (r: Option<usize>)
        requires
            self.wf(),
        ensures
            r matches Some(i) ==> i < self@.entries.len() && key_of(self@.entries[i as int].current)
                == (space, cell) && entry_at(self@.entries, (space, cell)) == self@.entries[i as int],
            r is None ==> !has_cell(self@.entries, (space, cell)),
    {
        let mut i: usize = 0;
        while i < self.entries.len()
            invariant
                i <= self.entries@.len(),
                self.wf(),
                forall|k: int| 0 <= k < i ==> key_of(#[trigger] self@.entries[k].current) != (space, cell),
            decreases self.entries@.len() - i,
        {
            proof {
                self.lemma_view_index(i as int);
            }
            if self.entries[i].current.space == space && self.entries[i].current.cell == cell {
                proof {
                    lemma_unique_index(self@.entries, i as int);
                }
                return Some(i);
            }
            i = i + 1;
        }
        None
    }

    /// Puts an entry under its cell, replacing the entry of that cell.
    fn put(&mut self, e: DenseEditEntry)
        requires
            old(self).wf(),
        ensures
            final(self).wf(),
            final(self)@ == (CoverageView { entries: put_entry(old(self)@.entries, ev(e)), ..old(self)@ }),
    {
        let ghost s = self@.entries;
        match self.find(e.current.space, e.current.cell) {
            Some(i) => {
                proof {
                    lemma_unique_index(s, i as int);
                }
                self.entries.set(i, e);
                proof {
                    assert(self@.entries =~= s.update(i as int, ev(e)));
                    assert forall|a: int, b: int|
                        0 <= a < self@.entries.len() && 0 <= b < self@.entries.len() && a != b implies key_of(
                            self@.entries[a].current,
                        ) != key_of(self@.entries[b].current) by {
                        if a != i && b != i {
                            assert(self@.entries[a] == s[a]);
                            assert(self@.entries[b] == s[b]);
                        } else if a == i {
                            assert(self@.entries[b] == s[b]);
                        } else {
                            assert(self@.entries[a] == s[a]);
                        }
                    }
                }
            },
            None => {
                self.entries.push(e);
                proof {
                    assert(self@.entries =~= s.push(ev(e)));
                    assert forall|a: int, b: int|
                        0 <= a < self@.entries.len() && 0 <= b < self@.entries.len() && a != b implies key_of(
                            self@.entries[a].current,
                        ) != key_of(self@.entries[b].current) by {
                        if a < s.len() && b < s.len() {
                            assert(self@.entries[a] == s[a]);
                            assert(self@.entries[b] == s[b]);
                        } else if a < s.len() {
                            assert(self@.entries[a] == s[a]);
                        } else {
                            assert(self@.entries[b] == s[b]);
                        }
                    }
                }
            },
        }
    }

    /// A working set of loaded records, each under its cell (a later record of a cell replaces
    /// an earlier one).
    pub fn from_environment_records(records: &[EnvironmentCellRecord]) -> (s: Self)
        ensures
            s.wf(),
            s@.entries == loaded_entries(records@.map_values(|r: EnvironmentCellRecord| rv(r))),
            s@.edit_revision == 0,
            s@.last_completed_query == 0,
            !s@.gesture_active,
    {
        let mut s = Self::new();
        let ghost views = records@.map_values(|r: EnvironmentCellRecord| rv(r));
        let mut i: usize = 0;
        while i < records.len()
            invariant
                i <= records@.len(),
                views == records@.map_values(|r: EnvironmentCellRecord| rv(r)),
                s.wf(),
                s@.entries == loaded_entries(views.take(i as int)),
                s@.edit_revision == 0,
                s@.last_completed_query == 0,
                !s@.gesture_active,
            decreases records@.len() - i,
        {
            let record = &records[i];
            let current = copy_record(record);
            let positive = record.source_revision > 0;
            let base = if positive {
                Some(copy_record(record))
            } else {
                None
            };
            let runtime = if positive {
                Some(copy_record(record))
            } else {
                None
            };
            let entry = DenseEditEntry { base, current, runtime, save_state: DenseSaveState::Idle };
            proof {
                assert(ev(entry) == loaded_entry(views[i as int]));
                assert(views.take(i + 1).drop_last() =~= views.take(i as int));
            }
            s.put(entry);
            i = i + 1;
        }
        proof {
            assert(views.take(i as int) =~= views);
        }
        s
    }

    /// The local value of a cell.
    pub fn environment_record(&self, space: WorldSpaceId, cell: CellCoord) -> (r: Option<&EnvironmentCellRecord>)
        requires
            self.wf(),
        ensures
            r is Some <==> has_cell(self@.entries, (space, cell)),
            r matches Some(x) ==> rv(*x) == entry_at(self@.entries, (space, cell)).current,
    {
        match self.find(space, cell) {
            Some(i) => {
                proof {
                    self.lemma_view_index(i as int);
                }
                Some(&self.entries[i].current)
            },
            None => None,
        }
    }

    /// The number of cells held.
    pub fn environment_record_count(&self) -> (n: usize)
        ensures
            n == self@.entries.len(),
    {
        self.entries.len()
    }

    /// The revision of the working set's content; it changes with every edit.
    pub fn edit_revision(&self) -> (r: u64)
        ensures
            r == self@.edit_revision,
    {
        self.edit_revision
    }

    /// Whether a brush gesture is under way; no save is queued meanwhile.
    pub fn gesture_active(&self) -> (r: bool)
        ensures
            r == self@.gesture_active,
    {
        self.gesture_active
    }

    /// Records whether a brush gesture is under way.
    pub fn set_gesture_active(&mut self, active: bool)
        ensures
            final(self)@ == (CoverageView { gesture_active: active, ..old(self)@ }),
    {
        self.gesture_active = active;
    }

    fn count(&self, which: u8) -> (n: usize)
        requires
            which < 4,
        ensures
            n == count_where(self@.entries, counted(which)),
    {
        let ghost p = counted(which);
        let mut n: usize = 0;
        let mut i: usize = 0;
        while i < self.entries.len()
            invariant
                i <= self.entries@.len(),
                which < 4,
                p == counted(which),
                n == count_where(self@.entries.take(i as int), p),
                n <= i,
            decreases self.entries@.len() - i,
        {
            proof {
                self.lemma_view_index(i as int);
                lemma_count_step(self@.entries, i as int, p);
            }
            let e = &self.entries[i];
            let hit = if which == 0 {
                entry_dirty(e)
            } else if which == 1 {
                match e.save_state {
                    DenseSaveState::Conflict(_) => true,
                    _ => false,
                }
            } else if which == 2 {
                entry_diverged(e)
            } else {
                entry_dirty(e) || entry_diverged(e)
            };
            if hit {
                n = n + 1;
            }
            i = i + 1;
        }
        proof {
            assert(self@.entries.take(i as int) =~= self@.entries);
        }
        n
    }

    /// The number of cells whose local value differs from the checkpoint.
    pub fn dirty_count(&self) -> (n: usize)
        ensures
            n == count_where(self@.entries, |e: EntryView| is_dirty(e)),
    {
        proof {
            assert(counted(0) =~= (|e: EntryView| is_dirty(e)));
        }
        self.count(0)
    }

    /// The number of cells in conflict with the database.
    pub fn conflict_count(&self) -> (n: usize)
        ensures
            n == count_where(self@.entries, |e: EntryView| is_conflict(e)),
    {
        proof {
            assert(counted(1) =~= (|e: EntryView| is_conflict(e)));
        }
        self.count(1)
    }

    fn any(&self, which: u8) -> (r: bool)
        requires
            which < 4,
        ensures
            r == any_where(self@.entries, found(which)),
    {
        let ghost p = found(which);
        let mut i: usize = 0;
        while i < self.entries.len()
            invariant
                i <= self.entries@.len(),
                which < 4,
                p == found(which),
                forall|k: int| 0 <= k < i ==> !p(#[trigger] self@.entries[k]),
            decreases self.entries@.len() - i,
        {
            proof {
                self.lemma_view_index(i as int);
            }
            let e = &self.entries[i];
            let hit = match &e.save_state {
                DenseSaveState::Saving(_) => which == 0,
                DenseSaveState::Conflict(actual) => which == 1 || (which == 2 && match actual {
                    Some(a) => same_dense_shape(a, &e.current),
                    None => false,
                }) || (which == 3 && match actual {
                    Some(a) => same_dense_shape(a, &e.current),
                    None => true,
                }),
                _ => false,
            };
            if hit {
                return true;
            }
            i = i + 1;
        }
        false
    }

    /// Whether a cell's save is in flight.
    pub fn saving(&self) -> (r: bool)
        ensures
            r == any_where(self@.entries, |e: EntryView| is_saving(e)),
    {
        proof {
            assert(found(0) =~= (|e: EntryView| is_saving(e)));
        }
        self.any(0)
    }

    /// Whether some cell is in conflict with the database.
    pub fn has_any_conflict(&self) -> (r: bool)
        ensures
            r == any_where(self@.entries, |e: EntryView| is_conflict(e)),
    {
        proof {
            assert(found(1) =~= (|e: EntryView| is_conflict(e)));
        }
        self.any(1)
    }

    /// Whether some conflict can be settled by taking the database record.
    pub fn can_accept_database_conflicts(&self) -> (r: bool)
        ensures
            r == any_where(self@.entries, |e: EntryView| acceptable_conflict(e)),
    {
        proof {
            assert(found(2) =~= (|e: EntryView| acceptable_conflict(e)));
        }
        self.any(2)
    }

    /// Whether some conflict can be settled by keeping the local value.
    pub fn can_keep_local_conflicts(&self) -> (r: bool)
        ensures
            r == any_where(self@.entries, |e: EntryView| keepable_conflict(e)),
    {
        proof {
            assert(found(3) =~= (|e: EntryView| keepable_conflict(e)));
        }
        self.any(3)
    }
    fn bump_revision(&mut self)
        ensures
            final(self)@ == (CoverageView { edit_revision: bumped(old(self)@.edit_revision), ..old(self)@ }),
    {
        let next = self.edit_revision.wrapping_add(1);
        self.edit_revision = if next < 1 {
            1
        } else {
            next
        };
    }

    /// Takes back a recovered snapshot of a dirty cell, under its cell. A snapshot whose
    /// checkpoint equals its local value, or with an invalid record or a record of another
    /// cell, is refused.
    pub fn restore_dirty_snapshot(&mut self, snapshot: DirtyDenseSnapshot) -> (restored: bool)
        requires
            old(self).wf(),
        ensures
            final(self).wf(),
            restored == restorable(snapshot),
            restored ==> final(self)@ == (CoverageView {
                entries: put_entry(
                    old(self)@.entries,
                    EntryView {
                        base: orv(snapshot.base),
                        current: rv(snapshot.current),
                        runtime: orv(snapshot.runtime),
                        state: SaveStateView::Idle,
                    },
                ),
                edit_revision: bumped(old(self)@.edit_revision),
                ..old(self)@
            }),
            !restored ==> final(self)@ == old(self)@,
    {
        let equal = match &snapshot.base {
            Some(b) => same_record(&Some(copy_record(b)), &Some(copy_record(&snapshot.current))),
            None => false,
        };
        let base_ok = match &snapshot.base {
            Some(b) => b.space == snapshot.current.space && b.cell == snapshot.current.cell
                && valid_dense_record(b),
            None => true,
        };
        let runtime_ok = match &snapshot.runtime {
            Some(r) => r.space == snapshot.current.space && r.cell == snapshot.current.cell
                && valid_dense_record(r),
            None => true,
        };
        if equal || !valid_dense_record(&snapshot.current) || !base_ok || !runtime_ok {
            return false;
        }
        let entry = DenseEditEntry {
            base: snapshot.base,
            current: snapshot.current,
            runtime: snapshot.runtime,
            save_state: DenseSaveState::Idle,
        };
        self.put(entry);
        self.bump_revision();
        true
    }

    fn entry_copy(&self, i: usize) -> (e: DenseEditEntry)
        requires
            i < self@.entries.len(),
        ensures
            ev(e) == self@.entries[i as int],
    {
        proof {
            self.lemma_view_index(i as int);
        }
        let old = &self.entries[i];
        let save_state = match &old.save_state {
            DenseSaveState::Idle => DenseSaveState::Idle,
            DenseSaveState::Saving(id) => DenseSaveState::Saving(*id),
            DenseSaveState::Conflict(actual) => DenseSaveState::Conflict(copy_option(actual)),
            DenseSaveState::Failed(error) => DenseSaveState::Failed(error.clone()),
        };
        DenseEditEntry {
            base: copy_option(&old.base),
            current: copy_record(&old.current),
            runtime: copy_option(&old.runtime),
            save_state,
        }
    }

    /// Replaces entry `i` by an entry of the same cell.
    fn replace_at(&mut self, i: usize, e: DenseEditEntry)
        requires
            old(self).wf(),
            i < old(self)@.entries.len(),
            key_of(ev(e).current) == key_of(old(self)@.entries[i as int].current),
        ensures
            final(self).wf(),
            final(self)@ == (CoverageView { entries: old(self)@.entries.update(i as int, ev(e)), ..old(self)@ }),
    {
        let ghost s = self@.entries;
        self.entries.set(i, e);
        proof {
            assert(self@.entries =~= s.update(i as int, ev(e)));
            assert forall|a: int, b: int|
                0 <= a < self@.entries.len() && 0 <= b < self@.entries.len() && a != b implies key_of(
                    self@.entries[a].current,
                ) != key_of(self@.entries[b].current) by {
                assert(key_of(self@.entries[a].current) == key_of(s[a].current));
                assert(key_of(self@.entries[b].current) == key_of(s[b].current));
            }
        }
    }

    /// Settles the conflicts that allow it by keeping the local coverage for a retry: the
    /// checkpoint becomes the database record (or none) and the local value takes its revision
    /// (0 when the record vanished). Conflicts with a record of another shape stay. Returns how
    /// many were settled.
    pub fn keep_local_conflicts(&mut self) -> (resolved: usize)
        requires
            old(self).wf(),
        ensures
            final(self).wf(),
            resolved == count_where(old(self)@.entries, |e: EntryView| keepable_conflict(e)),
            final(self)@.entries == old(self)@.entries.map_values(|e: EntryView| keep_step(e)),
            final(self)@.edit_revision == if resolved > 0 {
                bumped(old(self)@.edit_revision)
            } else {
                old(self)@.edit_revision
            },
            final(self)@.last_completed_query == old(self)@.last_completed_query,
            final(self)@.gesture_active == old(self)@.gesture_active,
    {
        let ghost s = self@.entries;
        let mut resolved: usize = 0;
        let mut i: usize = 0;
        while i < self.entries.len()
            invariant
                self.wf(),
                s.len() == self@.entries.len(),
                i <= s.len(),
                forall|k: int| 0 <= k < i ==> self@.entries[k] == keep_step(#[trigger] s[k]),
                forall|k: int| i <= k < s.len() ==> self@.entries[k] == s[k],
                resolved == count_where(s.take(i as int), |e: EntryView| keepable_conflict(e)),
                resolved <= i,
                self@.edit_revision == old(self)@.edit_revision,
                self@.last_completed_query == old(self)@.last_completed_query,
                self@.gesture_active == old(self)@.gesture_active,
            decreases s.len() - i,
        {
            proof {
                lemma_count_step(s, i as int, |e: EntryView| keepable_conflict(e));
                self.lemma_view_index(i as int);
            }
            let e = self.entry_copy(i);
            let (keepable, revision) = match &e.save_state {
                DenseSaveState::Conflict(Some(actual)) => (same_dense_shape(actual, &e.current), actual.source_revision),
                DenseSaveState::Conflict(None) => (true, 0),
                _ => (false, 0),
            };
            if keepable {
                let DenseEditEntry { base: _, current, runtime, save_state } = e;
                let actual = match save_state {
                    DenseSaveState::Conflict(actual) => actual,
                    _ => None,
                };
                let mut current = current;
                current.source_revision = revision;
                let next = DenseEditEntry { base: actual, current, runtime, save_state: DenseSaveState::Idle };
                proof {
                    assert(ev(next) == keep_step(s[i as int]));
                }
                self.replace_at(i, next);
                resolved = resolved + 1;
            } else {
                proof {
                    assert(keep_step(s[i as int]) == s[i as int]);
                }
            }
            i = i + 1;
        }
        proof {
            assert(s.take(i as int) =~= s);
            assert(self@.entries =~= s.map_values(|e: EntryView| keep_step(e)));
        }
        if resolved > 0 {
            self.bump_revision();
        }
        resolved
    }

    /// Settles the conflicts with a database record of the same shape by taking it as both
    /// checkpoint and local value. Returns how many were settled.
    pub fn accept_database_conflicts(&mut self) -> (resolved: usize)
        requires
            old(self).wf(),
        ensures
            final(self).wf(),
            resolved == count_where(old(self)@.entries, |e: EntryView| acceptable_conflict(e)),
            final(self)@.entries == old(self)@.entries.map_values(|e: EntryView| accept_step(e)),
            final(self)@.edit_revision == if resolved > 0 {
                bumped(old(self)@.edit_revision)
            } else {
                old(self)@.edit_revision
            },
            final(self)@.last_completed_query == old(self)@.last_completed_query,
            final(self)@.gesture_active == old(self)@.gesture_active,
    {
        let ghost s = self@.entries;
        let mut resolved: usize = 0;
        let mut i: usize = 0;
        while i < self.entries.len()
            invariant
                self.wf(),
                s.len() == self@.entries.len(),
                i <= s.len(),
                forall|k: int| 0 <= k < i ==> self@.entries[k] == accept_step(#[trigger] s[k]),
                forall|k: int| i <= k < s.len() ==> self@.entries[k] == s[k],
                resolved == count_where(s.take(i as int), |e: EntryView| acceptable_conflict(e)),
                resolved <= i,
                self@.edit_revision == old(self)@.edit_revision,
                self@.last_completed_query == old(self)@.last_completed_query,
                self@.gesture_active == old(self)@.gesture_active,
            decreases s.len() - i,
        {
            proof {
                lemma_count_step(s, i as int, |e: EntryView| acceptable_conflict(e));
                self.lemma_view_index(i as int);
            }
            let e = self.entry_copy(i);
            let acceptable = match &e.save_state {
                DenseSaveState::Conflict(Some(actual)) => same_dense_shape(actual, &e.current),
                _ => false,
            };
            if acceptable {
                let DenseEditEntry { base: _, current: _, runtime, save_state } = e;
                match save_state {
                    DenseSaveState::Conflict(Some(actual)) => {
                        let next = DenseEditEntry {
                            base: Some(copy_record(&actual)),
                            current: actual,
                            runtime,
                            save_state: DenseSaveState::Idle,
                        };
                        proof {
                            assert(ev(next) == accept_step(s[i as int]));
                        }
                        self.replace_at(i, next);
                        resolved = resolved + 1;
                    },
                    _ => {},
                }
            } else {
                proof {
                    assert(accept_step(s[i as int]) == s[i as int]);
                }
            }
            i = i + 1;
        }
        proof {
            assert(s.take(i as int) =~= s);
            assert(self@.entries =~= s.map_values(|e: EntryView| accept_step(e)));
        }
        if resolved > 0 {
            self.bump_revision();
        }
        resolved
    }

    /// Advances every runtime baseline to the checkpoint once a newly cooked generation is
    /// adopted; unsaved local values stay divergent. Returns how many baselines moved.
    pub fn adopt_runtime_generation(&mut self) -> (adopted: usize)
        requires
            old(self).wf(),
        ensures
            final(self).wf(),
            adopted == count_where(old(self)@.entries, |e: EntryView| e.runtime != e.base),
            final(self)@.entries == old(self)@.entries.map_values(
                |e: EntryView| EntryView { runtime: e.base, ..e },
            ),
            final(self)@.edit_revision == if adopted > 0 {
                bumped(old(self)@.edit_revision)
            } else {
                old(self)@.edit_revision
            },
            final(self)@.last_completed_query == old(self)@.last_completed_query,
            final(self)@.gesture_active == old(self)@.gesture_active,
    {
        let ghost s = self@.entries;
        let mut adopted: usize = 0;
        let mut i: usize = 0;
        while i < self.entries.len()
            invariant
                self.wf(),
                s.len() == self@.entries.len(),
                i <= s.len(),
                forall|k: int| 0 <= k < i ==> self@.entries[k] == (EntryView { runtime: s[k].base, ..s[k] }),
                forall|k: int| i <= k < s.len() ==> self@.entries[k] == s[k],
                adopted == count_where(s.take(i as int), |e: EntryView| e.runtime != e.base),
                adopted <= i,
                self@.edit_revision == old(self)@.edit_revision,
                self@.last_completed_query == old(self)@.last_completed_query,
                self@.gesture_active == old(self)@.gesture_active,
            decreases s.len() - i,
        {
            proof {
                lemma_count_step(s, i as int, |e: EntryView| e.runtime != e.base);
                self.lemma_view_index(i as int);
            }
            let e = self.entry_copy(i);
            if !same_record(&e.runtime, &e.base) {
                let DenseEditEntry { base, current, runtime: _, save_state } = e;
                let runtime = copy_option(&base);
                let next = DenseEditEntry { base, current, runtime, save_state };
                self.replace_at(i, next);
                adopted = adopted + 1;
            }
            i = i + 1;
        }
        proof {
            assert(s.take(i as int) =~= s);
            assert(self@.entries =~= s.map_values(|e: EntryView| EntryView { runtime: e.base, ..e }));
        }
        if adopted > 0 {
            self.bump_revision();
        }
        adopted
    }
}

/// The record is storable: revisions in range and every tile between 2 x 2 and 257 x 257
/// samples.
pub open spec fn valid_record(r: RecordView) -> bool {
    r.source_revision >= 0 && r.definition_revision > 0 && forall|i: int|
        0 <= i < r.tiles.len() ==> 4 <= (#[trigger] r.tiles[i]).1.len() <= 66049
}

/// Whether a record is storable.
pub fn valid_dense_record(r: &EnvironmentCellRecord) -> (ok: bool)
    ensures
        ok == valid_record(rv(*r)),
{
    if r.source_revision < 0 || r.definition_revision == 0 {
        return false;
    }
    let mut i: usize = 0;
    while i < r.tiles.len()
        invariant
            i <= r.tiles@.len(),
            forall|k: int| 0 <= k < i ==> 4 <= (#[trigger] tiles_view(r.tiles@)[k]).1.len() <= 66049,
        decreases r.tiles@.len() - i,
    {
        let n = r.tiles[i].samples.len();
        proof {
            assert(tiles_view(r.tiles@)[i as int].1.len() == n);
        }
        if n < 4 || n > 66049 {
            proof {
                assert(!(4 <= rv(*r).tiles[i as int].1.len() <= 66049));
            }
            return false;
        }
        i = i + 1;
    }
    true
}

/// Whether a snapshot may be restored: its checkpoint differs from its local value, and every
/// record it holds is valid and of the local value's cell.
pub open spec fn restorable(snapshot: DirtyDenseSnapshot) -> bool {
    let c = rv(snapshot.current);
    &&& orv(snapshot.base) != Some(c)
    &&& valid_record(c)
    &&& (snapshot.base matches Some(b) ==> key_of(rv(b)) == key_of(c) && valid_record(rv(b)))
    &&& (snapshot.runtime matches Some(r) ==> key_of(rv(r)) == key_of(c) && valid_record(rv(r)))
}

/// The entry after keeping its local value against a conflict that allows it.
pub open spec fn keep_step(e: EntryView) -> EntryView {
    if keepable_conflict(e) {
        match e.state {
            SaveStateView::Conflict(actual) => EntryView {
                base: actual,
                current: RecordView {
                    source_revision: match actual {
                        Some(a) => a.source_revision,
                        None => 0,
                    },
                    ..e.current
                },
                state: SaveStateView::Idle,
                ..e
            },
            _ => e,
        }
    } else {
        e
    }
}

/// The entry after taking the database record against a conflict that allows it.
pub open spec fn accept_step(e: EntryView) -> EntryView {
    if acceptable_conflict(e) {
        match e.state {
            SaveStateView::Conflict(Some(actual)) => EntryView {
                base: Some(actual),
                current: actual,
                state: SaveStateView::Idle,
                ..e
            },
            _ => e,
        }
    } else {
        e
    }
}

/// Which entries a record list takes: dirty ones, ones diverged from the runtime, either, or
/// all.
pub open spec fn listed(which: u8) -> spec_fn(EntryView) -> bool {
    |e: EntryView|
        if which == 0 {
            is_dirty(e)
        } else if which == 1 {
            runtime_diverged(e)
        } else if which == 2 {
            is_dirty(e) || runtime_diverged(e)
        } else {
            true
        }
}

/// The local values of the entries that satisfy `p`, in entry order.
pub open spec fn currents_where(s: Seq<EntryView>, p: spec_fn(EntryView) -> bool) -> Seq<RecordView>
    decreases s.len(),
{
    if s.len() == 0 {
        Seq::empty()
    } else if p(s.last()) {
        currents_where(s.drop_last(), p).push(s.last().current)
    } else {
        currents_where(s.drop_last(), p)
    }
}

/// The records by value.
pub open spec fn record_views(r: Seq<EnvironmentCellRecord>) -> Seq<RecordView> {
    r.map_values(|x: EnvironmentCellRecord| rv(x))
}

/// The sort key of a cell: world space, then x, then z.
pub open spec fn key_rank(k: CoverageKey) -> Rank {
    (
        0u8,
        (k.0.0 as int * 0x1_0000_0000_0000_0000 + (k.1.x as int + 0x8000_0000) * 0x1_0000_0000 + (
        k.1.z as int + 0x8000_0000)) as u128,
    )
}

pub(crate) fn cell_rank(space: WorldSpaceId, cell: CellCoord) -> (r: Rank)
    ensures
        r == key_rank((space, cell)),
{
    let x = (cell.x as i64 + 0x8000_0000) as u128;
    let z = (cell.z as i64 + 0x8000_0000) as u128;
    (0u8, (space.0 as u128) * 0x1_0000_0000_0000_0000 + x * 0x1_0000_0000 + z)
}

/// The dirty entries' positions, each ranked by its cell.
pub open spec fn dirty_positions(s: Seq<EntryView>) -> Seq<(Rank, usize)>
    decreases s.len(),
{
    if s.len() == 0 {
        Seq::empty()
    } else if is_dirty(s.last()) {
        dirty_positions(s.drop_last()).push((key_rank(key_of(s.last().current)), (s.len() - 1) as usize))
    } else {
        dirty_positions(s.drop_last())
    }
}

/// A recovery snapshot by value.
pub struct SnapshotView {
    pub base: Option<RecordView>,
    pub current: RecordView,
    pub runtime: Option<RecordView>,
}

/// The snapshot of an entry.
pub open spec fn snapshot_of(e: EntryView) -> SnapshotView {
    SnapshotView { base: e.base, current: e.current, runtime: e.runtime }
}

/// A snapshot by value.
pub open spec fn snv(d: DirtyDenseSnapshot) -> SnapshotView {
    SnapshotView { base: orv(d.base), current: rv(d.current), runtime: orv(d.runtime) }
}

/// The snapshots of the dirty entries, in order of their cells.
pub open spec fn dirty_snapshot_views(s: Seq<EntryView>) -> Seq<SnapshotView> {
    sort_by_rank(dirty_positions(s)).map_values(|p: (Rank, usize)| snapshot_of(s[p.1 as int]))
}

/// The bytes a record is accounted with: the record itself and its samples.
pub open spec fn record_bytes(r: RecordView) -> int {
    vstd::layout::size_of::<EnvironmentCellRecord>() + sample_count(r.tiles)
}

/// The number of samples of the tiles.
pub open spec fn sample_count(t: Seq<TileView>) -> int
    decreases t.len(),
{
    if t.len() == 0 {
        0
    } else {
        sample_count(t.drop_last()) + t.last().1.len()
    }
}

/// The bytes of an optional record.
pub open spec fn option_bytes(r: Option<RecordView>) -> int {
    match r {
        Some(x) => record_bytes(x),
        None => 0,
    }
}

/// The bytes an entry retains.
pub open spec fn entry_bytes(e: EntryView) -> int {
    option_bytes(e.base) + record_bytes(e.current) + option_bytes(e.runtime)
}

/// The bytes all entries retain.
pub open spec fn retained_total(s: Seq<EntryView>) -> int
    decreases s.len(),
{
    if s.len() == 0 {
        0
    } else {
        retained_total(s.drop_last()) + entry_bytes(s.last())
    }
}

/// The message of an entry's save state, if it is not idle.
pub open spec fn state_message(st: SaveStateView) -> Option<Seq<char>> {
    match st {
        SaveStateView::Idle => None,
        SaveStateView::Saving(id) => Some("saving dense transaction "@ + decimal(id as nat)),
        SaveStateView::Conflict(actual) => Some(
            if actual is Some {
                "dense source conflict; local patch retained"@
            } else {
                "dense source record disappeared; local patch retained"@
            },
        ),
        SaveStateView::Failed(e) => Some("dense save failed: "@ + e),
    }
}

/// The message of the first entry that is not idle.
pub open spec fn first_state_message(s: Seq<EntryView>) -> Option<Seq<char>>
    decreases s.len(),
{
    if s.len() == 0 {
        None
    } else if state_message(s[0].state) is Some {
        state_message(s[0].state)
    } else {
        first_state_message(s.drop_first())
    }
}

/// The bytes a record is accounted with, saturating at the largest `usize`.
pub fn dense_record_bytes(r: &EnvironmentCellRecord) -> (n: usize)
    ensures
        n == if record_bytes(rv(*r)) <= usize::MAX {
            record_bytes(rv(*r))
        } else {
            usize::MAX as int
        },
{
    let own = core::mem::size_of::<EnvironmentCellRecord>();
    let mut n: usize = own;
    let mut i: usize = 0;
    while i < r.tiles.len()
        invariant
            i <= r.tiles@.len(),
            own == vstd::layout::size_of::<EnvironmentCellRecord>(),
            n == if own + sample_count(tiles_view(r.tiles@.take(i as int))) <= usize::MAX {
                own + sample_count(tiles_view(r.tiles@.take(i as int)))
            } else {
                usize::MAX as int
            },
        decreases r.tiles@.len() - i,
    {
        proof {
            assert(tiles_view(r.tiles@.take(i + 1)).drop_last() =~= tiles_view(r.tiles@.take(i as int)));
        }
        n = n.saturating_add(r.tiles[i].samples.len());
        i = i + 1;
    }
    proof {
        assert(r.tiles@.take(i as int) =~= r.tiles@);
    }
    n
}

impl CoverageWorkingSet {
    fn records_where(&self, which: u8) -> (r: Vec<EnvironmentCellRecord>)
        requires
            which < 4,
        ensures
            record_views(r@) == currents_where(self@.entries, listed(which)),
    {
        let ghost p = listed(which);
        let mut r: Vec<EnvironmentCellRecord> = Vec::new();
        let mut i: usize = 0;
        while i < self.entries.len()
            invariant
                i <= self.entries@.len(),
                which < 4,
                p == listed(which),
                record_views(r@) == currents_where(self@.entries.take(i as int), p),
            decreases self.entries@.len() - i,
        {
            proof {
                self.lemma_view_index(i as int);
                assert(self@.entries.take(i + 1).drop_last() =~= self@.entries.take(i as int));
            }
            let e = &self.entries[i];
            let take = if which == 0 {
                entry_dirty(e)
            } else if which == 1 {
                entry_diverged(e)
            } else if which == 2 {
                entry_dirty(e) || entry_diverged(e)
            } else {
                true
            };
            if take {
                r.push(copy_record(&e.current));
                proof {
                    assert(record_views(r@) =~= record_views(r@.drop_last()).push(rv(r@.last())));
                }
            }
            i = i + 1;
        }
        proof {
            assert(self@.entries.take(i as int) =~= self@.entries);
        }
        r
    }

    /// The local values of the dirty cells.
    pub fn dirty_environment_cells(&self) -> (r: Vec<EnvironmentCellRecord>)
        ensures
            record_views(r@) == currents_where(self@.entries, |e: EntryView| is_dirty(e)),
    {
        proof {
            assert(listed(0) =~= (|e: EntryView| is_dirty(e)));
        }
        self.records_where(0)
    }

    /// The local values of the cells whose runtime baseline differs.
    pub fn runtime_divergent_records(&self) -> (r: Vec<EnvironmentCellRecord>)
        ensures
            record_views(r@) == currents_where(self@.entries, |e: EntryView| runtime_diverged(e)),
    {
        proof {
            assert(listed(1) =~= (|e: EntryView| runtime_diverged(e)));
        }
        self.records_where(1)
    }

    /// The local values a preview overlays: dirty cells, and cells whose runtime baseline
    /// differs (an unsaved undo back to the runtime baseline is one).
    pub fn preview_records(&self) -> (r: Vec<EnvironmentCellRecord>)
        ensures
            record_views(r@) == currents_where(
                self@.entries,
                |e: EntryView| is_dirty(e) || runtime_diverged(e),
            ),
    {
        proof {
            assert(listed(2) =~= (|e: EntryView| is_dirty(e) || runtime_diverged(e)));
        }
        self.records_where(2)
    }

    /// The local values of all cells.
    pub fn current_records(&self) -> (r: Vec<EnvironmentCellRecord>)
        ensures
            record_views(r@) == self@.entries.map_values(|e: EntryView| e.current),
    {
        proof {
            assert(listed(3) =~= (|e: EntryView| true));
            lemma_currents_all(self@.entries);
        }
        self.records_where(3)
    }

    /// The bytes the working set retains, saturating at the largest `usize`.
    pub fn retained_bytes(&self) -> (n: usize)
        ensures
            n == if retained_total(self@.entries) <= usize::MAX {
                retained_total(self@.entries)
            } else {
                usize::MAX as int
            },
    {
        let mut n: usize = 0;
        let mut i: usize = 0;
        while i < self.entries.len()
            invariant
                i <= self.entries@.len(),
                n == if retained_total(self@.entries.take(i as int)) <= usize::MAX {
                    retained_total(self@.entries.take(i as int))
                } else {
                    usize::MAX as int
                },
            decreases self.entries@.len() - i,
        {
            proof {
                self.lemma_view_index(i as int);
                assert(self@.entries.take(i + 1).drop_last() =~= self@.entries.take(i as int));
                lemma_bytes_nonnegative(self@.entries[i as int]);
            }
            let e = &self.entries[i];
            let b = match &e.base {
                Some(x) => dense_record_bytes(x),
                None => 0,
            };
            let rt = match &e.runtime {
                Some(x) => dense_record_bytes(x),
                None => 0,
            };
            n = n.saturating_add(b).saturating_add(dense_record_bytes(&e.current)).saturating_add(rt);
            i = i + 1;
        }
        proof {
            assert(self@.entries.take(i as int) =~= self@.entries);
        }
        n
    }

    /// Snapshots of the dirty cells for the recovery journal, in order of their cells.
    pub fn dirty_snapshots(&self) -> (r: Vec<DirtyDenseSnapshot>)
        requires
            self.wf(),
        ensures
            r@.map_values(|d: DirtyDenseSnapshot| snv(d)) == dirty_snapshot_views(self@.entries),
    {
        let order = self.dirty_order();
        let ghost positions = dirty_positions(self@.entries);
        let mut out: Vec<DirtyDenseSnapshot> = Vec::new();
        let mut j: usize = 0;
        while j < order.len()
            invariant
                j <= order@.len(),
                order@ == sort_by_rank(positions),
                positions == dirty_positions(self@.entries),
                forall|k: int| 0 <= k < order@.len() ==> #[trigger] order@[k].1 < self@.entries.len(),
                out@.map_values(|d: DirtyDenseSnapshot| snv(d)) == order@.take(j as int).map_values(
                    |p: (Rank, usize)| snapshot_of(self@.entries[p.1 as int]),
                ),
            decreases order@.len() - j,
        {
            let index = order[j].1;
            proof {
                assert(order@[j as int].1 < self@.entries.len());
                self.lemma_view_index(index as int);
            }
            let e = &self.entries[index];
            let ghost before = out@;
            out.push(
                DirtyDenseSnapshot {
                    base: copy_option(&e.base),
                    current: copy_record(&e.current),
                    runtime: copy_option(&e.runtime),
                },
            );
            proof {
                assert(snv(out@.last()) == snapshot_of(self@.entries[index as int]));
                assert(out@.map_values(|d: DirtyDenseSnapshot| snv(d)) =~= before.map_values(
                    |d: DirtyDenseSnapshot| snv(d),
                ).push(snv(out@.last())));
                assert(order@.take(j + 1).map_values(|p: (Rank, usize)| snapshot_of(self@.entries[p.1 as int]))
                    =~= order@.take(j as int).map_values(
                    |p: (Rank, usize)| snapshot_of(self@.entries[p.1 as int]),
                ).push(snapshot_of(self@.entries[index as int])));
                assert(out@.map_values(|d: DirtyDenseSnapshot| snv(d)) =~= order@.take(j + 1).map_values(
                    |p: (Rank, usize)| snapshot_of(self@.entries[p.1 as int]),
                ));
            }
            j = j + 1;
        }
        proof {
            assert(order@.take(j as int) =~= order@);
        }
        out
    }

    /// The status of the first cell whose save is not idle, if any.
    pub fn status(&self) -> (r: Option<String>)
        ensures
            match r {
                Some(m) => first_state_message(self@.entries) == Some(m@),
                None => first_state_message(self@.entries) is None,
            },
    {
        let mut i: usize = 0;
        assert(self@.entries.skip(0) =~= self@.entries);
        while i < self.entries.len()
            invariant
                i <= self.entries@.len(),
                first_state_message(self@.entries) == first_state_message(self@.entries.skip(i as int)),
            decreases self.entries@.len() - i,
        {
            proof {
                self.lemma_view_index(i as int);
                assert(self@.entries.skip(i as int).drop_first() =~= self@.entries.skip(i + 1));
            }
            match &self.entries[i].save_state {
                DenseSaveState::Idle => {},
                DenseSaveState::Saving(id) => {
                    let mut m = String::from_str("saving dense transaction ");
                    append_decimal(&mut m, *id);
                    return Some(m);
                },
                DenseSaveState::Conflict(actual) => {
                    return Some(
                        if actual.is_some() {
                            String::from_str("dense source conflict; local patch retained")
                        } else {
                            String::from_str("dense source record disappeared; local patch retained")
                        },
                    );
                },
                DenseSaveState::Failed(error) => {
                    let mut m = String::from_str("dense save failed: ");
                    m.append(error.as_str());
                    return Some(m);
                },
            }
            i = i + 1;
        }
        None
    }
}

proof fn lemma_currents_all(s: Seq<EntryView>)
    ensures
        currents_where(s, listed(3)) == s.map_values(|e: EntryView| e.current),
    decreases s.len(),
{
    if s.len() > 0 {
        lemma_currents_all(s.drop_last());
        assert(s.map_values(|e: EntryView| e.current) =~= s.drop_last().map_values(
            |e: EntryView| e.current,
        ).push(s.last().current));
    } else {
        assert(s.map_values(|e: EntryView| e.current) =~= Seq::<RecordView>::empty());
    }
}

proof fn lemma_bytes_nonnegative(e: EntryView)
    ensures
        entry_bytes(e) >= 0,
{
    lemma_samples_nonnegative(e.current.tiles);
    if e.base is Some {
        lemma_samples_nonnegative(e.base->0.tiles);
    }
    if e.runtime is Some {
        lemma_samples_nonnegative(e.runtime->0.tiles);
    }
}

proof fn lemma_samples_nonnegative(t: Seq<TileView>)
    ensures
        sample_count(t) >= 0,
    decreases t.len(),
{
    if t.len() > 0 {
        lemma_samples_nonnegative(t.drop_last());
    }
}

proof fn lemma_positions_in_range(s: Seq<EntryView>)
    ensures
        forall|k: int| 0 <= k < dirty_positions(s).len() ==> (#[trigger] dirty_positions(s)[k]).1 < s.len(),
    decreases s.len(),
{
    if s.len() > 0 {
        lemma_positions_in_range(s.drop_last());
        let prev = dirty_positions(s.drop_last());
        assert forall|k: int| 0 <= k < dirty_positions(s).len() implies (#[trigger] dirty_positions(s)[k]).1 < s.len() by {
            if k < prev.len() {
                assert(dirty_positions(s)[k] == prev[k]);
            }
        }
    }
}

/// The layers of an environment definition as a coverage command is checked against them.
#[derive(Clone, Debug)]
pub struct CoverageDefinition {
    pub space: WorldSpaceId,
    pub layers: Vec<LayerId>,
    pub mask_resolution: u16,
    pub revision: u64,
}

/// The first definition of a space, if any.
pub open spec fn definition_for(defs: Seq<CoverageDefinition>, space: WorldSpaceId) -> Option<
    CoverageDefinition,
>
    decreases defs.len(),
{
    if defs.len() == 0 {
        None
    } else if defs[0].space == space {
        Some(defs[0])
    } else {
        definition_for(defs.drop_first(), space)
    }
}

/// Whether every tile is of a layer of the definition and has its mask's sample count.
pub open spec fn fits_definition(tiles: Seq<TileView>, d: CoverageDefinition) -> bool {
    forall|i: int|
        0 <= i < tiles.len() ==> d.layers@.contains((#[trigger] tiles[i]).0) && tiles[i].1.len()
            == d.mask_resolution as int * d.mask_resolution as int
}

/// What the command makes of one record, or why it is refused: the cell must be loaded; the
/// tiles must fit the space's definition, whose revision the record takes; the record must be
/// of the shape of the local value, whose save is neither in flight nor in conflict; and it
/// keeps the local value's source revision.
pub open spec fn checked_record(
    entries: Seq<EntryView>,
    defs: Seq<CoverageDefinition>,
    r: RecordView,
) -> Result<RecordView, Seq<char>> {
    if !has_cell(entries, key_of(r)) {
        Err("Wait for this area to load before editing"@)
    } else {
        let d = definition_for(defs, r.space);
        if d matches Some(def) && !fits_definition(r.tiles, def) {
            Err("Coverage command does not match the current layers"@)
        } else {
            let rep = match d {
                Some(def) => RecordView { definition_revision: def.revision, ..r },
                None => r,
            };
            let e = entry_at(entries, key_of(r));
            if !same_shape(e.current, rep) || e.state is Saving || e.state is Conflict {
                Err("Resolve the pending save or changed layer definition first"@)
            } else {
                Ok(RecordView { source_revision: e.current.source_revision, ..rep })
            }
        }
    }
}

/// Whether a record of the cell is among the replacements.
pub open spec fn replaces(reps: Seq<RecordView>, k: CoverageKey) -> bool {
    exists|i: int| 0 <= i < reps.len() && key_of(reps[i]) == k
}

/// The replacement of a cell (meaningful when there is one).
pub open spec fn replacement_for(reps: Seq<RecordView>, k: CoverageKey) -> RecordView {
    reps[choose|i: int| 0 <= i < reps.len() && key_of(reps[i]) == k]
}

/// The replacements a command makes, record by record, or the first refusal; a cell may occur
/// only once.
pub open spec fn command_replacements(
    entries: Seq<EntryView>,
    defs: Seq<CoverageDefinition>,
    records: Seq<RecordView>,
) -> Result<Seq<RecordView>, Seq<char>>
    decreases records.len(),
{
    if records.len() == 0 {
        Ok(Seq::empty())
    } else {
        match command_replacements(entries, defs, records.drop_last()) {
            Err(e) => Err(e),
            Ok(reps) => match checked_record(entries, defs, records.last()) {
                Err(e) => Err(e),
                Ok(rep) => if replaces(reps, key_of(rep)) {
                    Err("Duplicate cell in coverage command"@)
                } else {
                    Ok(reps.push(rep))
                },
            },
        }
    }
}

/// The value an entry would hold after the replacements.
pub open spec fn next_value(e: EntryView, reps: Seq<RecordView>) -> RecordView {
    if replaces(reps, key_of(e.current)) {
        replacement_for(reps, key_of(e.current))
    } else {
        e.current
    }
}

/// The number of entries that would be dirty after the replacements.
pub open spec fn dirty_after(s: Seq<EntryView>, reps: Seq<RecordView>) -> int
    decreases s.len(),
{
    if s.len() == 0 {
        0
    } else {
        dirty_after(s.drop_last(), reps) + if !same_content(s.last().base, next_value(s.last(), reps)) {
            1int
        } else {
            0int
        }
    }
}

/// The bytes of the entries that would be dirty after the replacements.
pub open spec fn dirty_bytes_after(s: Seq<EntryView>, reps: Seq<RecordView>) -> int
    decreases s.len(),
{
    if s.len() == 0 {
        0
    } else {
        dirty_bytes_after(s.drop_last(), reps) + if !same_content(
            s.last().base,
            next_value(s.last(), reps),
        ) {
            record_bytes(next_value(s.last(), reps))
        } else {
            0int
        }
    }
}

/// The bytes all entries would retain after the replacements.
pub open spec fn retained_after(s: Seq<EntryView>, reps: Seq<RecordView>) -> int
    decreases s.len(),
{
    if s.len() == 0 {
        0
    } else {
        retained_after(s.drop_last(), reps) + option_bytes(s.last().base) + record_bytes(
            next_value(s.last(), reps),
        ) + option_bytes(s.last().runtime)
    }
}

/// The bound the replacements would break, if any: too many or too large dirty cells for one
/// save, or too much retained coverage.
pub open spec fn limit_error(s: Seq<EntryView>, reps: Seq<RecordView>) -> Option<Seq<char>> {
    if dirty_after(s, reps) > MAX_DENSE_DOMAIN_WRITES_PER_TRANSACTION || dirty_bytes_after(s, reps)
        > MAX_DIRTY_COVERAGE_BYTES {
        Some("Save these changes before painting more area"@)
    } else if retained_after(s, reps) > MAX_RETAINED_COVERAGE_BYTES || s.len()
        > MAX_COVERAGE_ENTRIES {
        Some("Publish changes and clear undo history to release the retained painting area"@)
    } else {
        None
    }
}

/// The entry after the replacements: a replacement with other coverage becomes the local value,
/// and the save state is reset.
pub open spec fn replaced_entry(e: EntryView, reps: Seq<RecordView>) -> EntryView {
    if replaces(reps, key_of(e.current)) && !same_content(
        Some(e.current),
        replacement_for(reps, key_of(e.current)),
    ) {
        EntryView {
            current: replacement_for(reps, key_of(e.current)),
            state: SaveStateView::Idle,
            ..e
        }
    } else {
        e
    }
}

/// What a coverage command does to the working set, and whether it is accepted.
pub open spec fn records_model(
    s: CoverageView,
    defs: Seq<CoverageDefinition>,
    records: Seq<RecordView>,
) -> (CoverageView, bool) {
    match command_replacements(s.entries, defs, records) {
        Err(_) => (s, false),
        Ok(reps) => match limit_error(s.entries, reps) {
            Some(_) => (s, false),
            None => (
                CoverageView {
                    entries: s.entries.map_values(|e: EntryView| replaced_entry(e, reps)),
                    edit_revision: if any_replaced(s.entries, reps) {
                        bumped(s.edit_revision)
                    } else {
                        s.edit_revision
                    },
                    ..s
                },
                true,
            ),
        },
    }
}

/// Some entry changes under the replacements.
pub open spec fn any_replaced(s: Seq<EntryView>, reps: Seq<RecordView>) -> bool {
    exists|i: int| 0 <= i < s.len() && replaced_entry(#[trigger] s[i], reps) != s[i]
}

/// The number of dirty entries.
pub open spec fn dirty_count(s: Seq<EntryView>) -> int
    decreases s.len(),
{
    if s.len() == 0 {
        0
    } else {
        dirty_count(s.drop_last()) + if is_dirty(s.last()) {
            1int
        } else {
            0int
        }
    }
}

/// The bytes of the local values of the dirty entries.
pub open spec fn dirty_bytes(s: Seq<EntryView>) -> int
    decreases s.len(),
{
    if s.len() == 0 {
        0
    } else {
        dirty_bytes(s.drop_last()) + if is_dirty(s.last()) {
            record_bytes(s.last().current)
        } else {
            0int
        }
    }
}

/// The entries stay within what one save may write (cells and bytes) and what the working
/// set may retain (bytes and entries).
pub open spec fn within_limits(s: Seq<EntryView>) -> bool {
    &&& dirty_count(s) <= MAX_DENSE_DOMAIN_WRITES_PER_TRANSACTION
    &&& dirty_bytes(s) <= MAX_DIRTY_COVERAGE_BYTES
    &&& retained_total(s) <= MAX_RETAINED_COVERAGE_BYTES
    &&& s.len() <= MAX_COVERAGE_ENTRIES
}

/// An entry after the replacements is dirty, and weighs, as its next value says.
proof fn lemma_replaced_entry_measures(e: EntryView, reps: Seq<RecordView>)
    ensures
        is_dirty(replaced_entry(e, reps)) == !same_content(e.base, next_value(e, reps)),
        record_bytes(replaced_entry(e, reps).current) == record_bytes(next_value(e, reps)),
        entry_bytes(replaced_entry(e, reps)) == option_bytes(e.base) + record_bytes(next_value(e, reps))
            + option_bytes(e.runtime),
{
}

/// The measures taken before the replacements are those of the entries after them.
proof fn lemma_measures_after(s: Seq<EntryView>, reps: Seq<RecordView>)
    ensures
        dirty_after(s, reps) == dirty_count(s.map_values(|e: EntryView| replaced_entry(e, reps))),
        dirty_bytes_after(s, reps) == dirty_bytes(s.map_values(|e: EntryView| replaced_entry(e, reps))),
        retained_after(s, reps) == retained_total(s.map_values(|e: EntryView| replaced_entry(e, reps))),
    decreases s.len(),
{
    if s.len() > 0 {
        let m = s.map_values(|e: EntryView| replaced_entry(e, reps));
        lemma_measures_after(s.drop_last(), reps);
        assert(m.drop_last() =~= s.drop_last().map_values(|e: EntryView| replaced_entry(e, reps)));
        lemma_replaced_entry_measures(s.last(), reps);
    }
}

/// A coverage command that is accepted leaves the working set within its limits: at most
/// `MAX_DENSE_DOMAIN_WRITES_PER_TRANSACTION` dirty cells of at most `MAX_DIRTY_COVERAGE_BYTES`,
/// at most `MAX_RETAINED_COVERAGE_BYTES` retained, and at most `MAX_COVERAGE_ENTRIES` entries.
pub proof fn law_accepted_command_stays_within_limits(
    s: CoverageView,
    defs: Seq<CoverageDefinition>,
    records: Seq<RecordView>,
)
    requires
        records_model(s, defs, records).1,
    ensures
        within_limits(records_model(s, defs, records).0.entries),
{
    let reps = command_replacements(s.entries, defs, records)->Ok_0;
    lemma_measures_after(s.entries, reps);
}

proof fn lemma_replacements_distinct(
    entries: Seq<EntryView>,
    defs: Seq<CoverageDefinition>,
    records: Seq<RecordView>,
)
    requires
        command_replacements(entries, defs, records) is Ok,
    ensures
        ({
            let reps = command_replacements(entries, defs, records)->Ok_0;
            &&& forall|a: int, b: int|
                0 <= a < reps.len() && 0 <= b < reps.len() && a != b ==> key_of(reps[a]) != key_of(
                    reps[b],
                )
            &&& forall|a: int| 0 <= a < reps.len() ==> has_cell(entries, key_of(#[trigger] reps[a]))
            &&& forall|a: int|
                0 <= a < reps.len() ==> same_shape(
                    entry_at(entries, key_of(#[trigger] reps[a])).current,
                    reps[a],
                )
        }),
    decreases records.len(),
{
    if records.len() > 0 {
        lemma_replacements_distinct(entries, defs, records.drop_last());
        let prev = command_replacements(entries, defs, records.drop_last())->Ok_0;
        let rep = checked_record(entries, defs, records.last())->Ok_0;
        let reps = command_replacements(entries, defs, records)->Ok_0;
        assert(reps == prev.push(rep));
        assert forall|a: int, b: int|
            0 <= a < reps.len() && 0 <= b < reps.len() && a != b implies key_of(reps[a]) != key_of(
                reps[b],
            ) by {
            if a == prev.len() && b < prev.len() {
                assert(reps[b] == prev[b]);
            }
            if b == prev.len() && a < prev.len() {
                assert(reps[a] == prev[a]);
            }
        }
    }
}

proof fn lemma_replacement_at(reps: Seq<RecordView>, j: int)
    requires
        forall|a: int, b: int|
            0 <= a < reps.len() && 0 <= b < reps.len() && a != b ==> key_of(reps[a]) != key_of(
                reps[b],
            ),
        0 <= j < reps.len(),
    ensures
        replaces(reps, key_of(reps[j])),
        replacement_for(reps, key_of(reps[j])) == reps[j],
{
    assert(0 <= j < reps.len() && key_of(reps[j]) == key_of(reps[j]));
}

/// The first definition of a space.
fn find_definition(defs: &[CoverageDefinition], space: WorldSpaceId) -> (r: Option<usize>)
    ensures
        match r {
            Some(i) => i < defs@.len() && definition_for(defs@, space) == Some(defs@[i as int]),
            None => definition_for(defs@, space) is None,
        },
{
    let mut i: usize = 0;
    assert(defs@.skip(0) =~= defs@);
    while i < defs.len()
        invariant
            i <= defs@.len(),
            definition_for(defs@, space) == definition_for(defs@.skip(i as int), space),
        decreases defs@.len() - i,
    {
        proof {
            assert(defs@.skip(i as int).drop_first() =~= defs@.skip(i + 1));
        }
        if defs[i].space == space {
            return Some(i);
        }
        i = i + 1;
    }
    None
}

fn layer_listed(ids: &Vec<LayerId>, id: LayerId) -> (r: bool)
    ensures
        r == ids@.contains(id),
{
    let mut i: usize = 0;
    while i < ids.len()
        invariant
            i <= ids@.len(),
            forall|k: int| 0 <= k < i ==> ids@[k] != id,
        decreases ids@.len() - i,
    {
        if ids[i] == id {
            proof {
                assert(ids@[i as int] == id);
            }
            return true;
        }
        i = i + 1;
    }
    false
}

fn tiles_fit(tiles: &Vec<CoverageTile>, d: &CoverageDefinition) -> (r: bool)
    ensures
        r == fits_definition(tiles_view(tiles@), *d),
{
    let m = d.mask_resolution as u64;
    assert(m * m <= 65535 * 65535) by (nonlinear_arith)
        requires
            m <= 65535,
    ;
    let n = m * m;
    let mut i: usize = 0;
    while i < tiles.len()
        invariant
            i <= tiles@.len(),
            n == d.mask_resolution as int * d.mask_resolution as int,
            forall|k: int|
                0 <= k < i ==> d.layers@.contains((#[trigger] tiles_view(tiles@)[k]).0)
                    && tiles_view(tiles@)[k].1.len() == n,
        decreases tiles@.len() - i,
    {
        let t = &tiles[i];
        proof {
            assert(tiles_view(tiles@)[i as int] == (t.layer, t.samples@));
        }
        if !layer_listed(&d.layers, t.layer) || t.samples.len() as u64 != n {
            proof {
                assert(!(d.layers@.contains(tiles_view(tiles@)[i as int].0)
                    && tiles_view(tiles@)[i as int].1.len() == n));
            }
            return false;
        }
        i = i + 1;
    }
    true
}

impl CoverageWorkingSet {
    /// Checks a coverage command record by record and prepares each replacement, with the
    /// position of the entry it replaces.
    fn prepare_command(&self, records: &[EnvironmentCellRecord], definitions: &[CoverageDefinition]) -> (r: Result<
        Vec<(EnvironmentCellRecord, usize)>,
        String,
    >)
        requires
            self.wf(),
        ensures
            match command_replacements(self@.entries, definitions@, record_views(records@)) {
                Err(e) => r matches Err(m) && m@ == e,
                Ok(reps) => r matches Ok(v) && v@.map_values(
                    |p: (EnvironmentCellRecord, usize)| rv(p.0),
                ) == reps && forall|j: int|
                    0 <= j < v@.len() ==> (#[trigger] v@[j]).1 < self@.entries.len() && key_of(
                        self@.entries[v@[j].1 as int].current,
                    ) == key_of(rv(v@[j].0)),
            },
    {
        let ghost views = record_views(records@);
        let mut reps: Vec<(EnvironmentCellRecord, usize)> = Vec::new();
        let mut i: usize = 0;
        proof {
            assert(views.take(0) =~= Seq::<RecordView>::empty());
            assert(reps@.map_values(|p: (EnvironmentCellRecord, usize)| rv(p.0)) =~= Seq::<RecordView>::empty());
        }
        while i < records.len()
            invariant
                self.wf(),
                i <= records@.len(),
                views == record_views(records@),
                command_replacements(self@.entries, definitions@, views.take(i as int)) == Ok::<
                    Seq<RecordView>,
                    Seq<char>,
                >(reps@.map_values(|p: (EnvironmentCellRecord, usize)| rv(p.0))),
                forall|j: int|
                    0 <= j < reps@.len() ==> (#[trigger] reps@[j]).1 < self@.entries.len() && key_of(
                        self@.entries[reps@[j].1 as int].current,
                    ) == key_of(rv(reps@[j].0)),
            decreases records@.len() - i,
        {
            let ghost prefix = views.take(i as int);
            let ghost done = reps@.map_values(|p: (EnvironmentCellRecord, usize)| rv(p.0));
            proof {
                assert(views.take(i + 1).drop_last() =~= prefix);
                assert(views.take(i + 1).last() == rv(records@[i as int]));
            }
            let record = &records[i];
            let idx = match self.find(record.space, record.cell) {
                Some(idx) => idx,
                None => {
                    proof {
                        lemma_command_error_persists(self@.entries, definitions@, views, i as int);
                    }
                    return Err(String::from_str("Wait for this area to load before editing"));
                },
            };
            let mut rep = copy_record(record);
            match find_definition(definitions, record.space) {
                Some(d) => {
                    if !tiles_fit(&record.tiles, &definitions[d]) {
                        proof {
                            lemma_command_error_persists(self@.entries, definitions@, views, i as int);
                        }
                        return Err(String::from_str("Coverage command does not match the current layers"));
                    }
                    rep.definition_revision = definitions[d].revision;
                },
                None => {},
            }
            proof {
                self.lemma_view_index(idx as int);
            }
            let e = &self.entries[idx];
            let busy = match e.save_state {
                DenseSaveState::Saving(_) => true,
                DenseSaveState::Conflict(_) => true,
                _ => false,
            };
            if !same_dense_shape(&e.current, &rep) || busy {
                proof {
                    lemma_command_error_persists(self@.entries, definitions@, views, i as int);
                }
                return Err(String::from_str("Resolve the pending save or changed layer definition first"));
            }
            rep.source_revision = e.current.source_revision;
            proof {
                assert(views[i as int] == rv(*record));
                assert(checked_record(self@.entries, definitions@, views[i as int]) == Ok::<RecordView, Seq<char>>(rv(rep)));
            }
            let mut j: usize = 0;
            while j < reps.len()
                invariant
                    self.wf(),
                    i < records@.len(),
                    views == record_views(records@),
                    prefix == views.take(i as int),
                    views.take(i + 1).drop_last() == prefix,
                    views.take(i + 1).last() == views[i as int],
                    command_replacements(self@.entries, definitions@, prefix) == Ok::<Seq<RecordView>, Seq<char>>(done),
                    checked_record(self@.entries, definitions@, views[i as int]) == Ok::<RecordView, Seq<char>>(rv(rep)),
                    j <= reps@.len(),
                    done == reps@.map_values(|p: (EnvironmentCellRecord, usize)| rv(p.0)),
                    forall|k: int|
                        0 <= k < j ==> key_of(rv((#[trigger] reps@[k]).0)) != key_of(rv(rep)),
                decreases reps@.len() - j,
            {
                if reps[j].0.space == rep.space && reps[j].0.cell == rep.cell {
                    proof {
                        assert(done[j as int] == rv(reps@[j as int].0));
                        assert(replaces(done, key_of(rv(rep))));
                        lemma_command_error_persists(self@.entries, definitions@, views, i as int);
                    }
                    return Err(String::from_str("Duplicate cell in coverage command"));
                }
                j = j + 1;
            }
            proof {
                assert(!replaces(done, key_of(rv(rep)))) by {
                    if replaces(done, key_of(rv(rep))) {
                        let k = choose|k: int| 0 <= k < done.len() && key_of(done[k]) == key_of(rv(rep));
                        assert(done[k] == rv(reps@[k].0));
                    }
                }
            }
            reps.push((rep, idx));
            proof {
                assert(reps@.map_values(|p: (EnvironmentCellRecord, usize)| rv(p.0)) =~= done.push(
                    rv(reps@.last().0),
                ));
            }
            i = i + 1;
        }
        proof {
            assert(views.take(i as int) =~= views);
        }
        Ok(reps)
    }
}

/// Once a prefix of a command is refused, the whole command is refused with the same message.
proof fn lemma_command_error_persists(
    entries: Seq<EntryView>,
    defs: Seq<CoverageDefinition>,
    records: Seq<RecordView>,
    i: int,
)
    requires
        0 <= i < records.len(),
        command_replacements(entries, defs, records.take(i + 1)) is Err,
    ensures
        command_replacements(entries, defs, records) == command_replacements(
            entries,
            defs,
            records.take(i + 1),
        ),
    decreases records.len() - i,
{
    if i + 1 < records.len() {
        assert(records.take(i + 2).drop_last() =~= records.take(i + 1));
        lemma_command_error_persists(entries, defs, records, i + 1);
    } else {
        assert(records.take(i + 1) =~= records);
    }
}

/// The replacements by value, each at the position of the entry it replaces, with distinct
/// cells.
pub open spec fn replacements_fit(
    entries: Seq<EntryView>,
    reps: Seq<(EnvironmentCellRecord, usize)>,
    rs: Seq<RecordView>,
) -> bool {
    &&& rs == reps.map_values(|p: (EnvironmentCellRecord, usize)| rv(p.0))
    &&& forall|a: int, b: int|
        0 <= a < rs.len() && 0 <= b < rs.len() && a != b ==> key_of(rs[a]) != key_of(rs[b])
    &&& forall|j: int|
        0 <= j < reps.len() ==> (#[trigger] reps[j]).1 < entries.len() && key_of(
            entries[reps[j].1 as int].current,
        ) == key_of(rv(reps[j].0))
}

pub proof fn lemma_record_bytes_nonnegative(r: RecordView)
    ensures
        record_bytes(r) >= 0,
        option_bytes(Some(r)) >= 0,
        option_bytes(None::<RecordView>) == 0,
{
    lemma_samples_nonnegative(r.tiles);
}

proof fn lemma_next_value(
    entries: Seq<EntryView>,
    reps: Seq<(EnvironmentCellRecord, usize)>,
    rs: Seq<RecordView>,
    k: int,
    found: Option<usize>,
)
    requires
        coverage_inv(CoverageView { entries, edit_revision: 0, last_completed_query: 0, gesture_active: false }),
        replacements_fit(entries, reps, rs),
        0 <= k < entries.len(),
        found matches Some(j) ==> j < reps.len() && reps[j as int].1 == k,
        found is None ==> forall|j: int| 0 <= j < reps.len() ==> (#[trigger] reps[j]).1 != k,
    ensures
        found matches Some(j) ==> next_value(entries[k], rs) == rs[j as int] && replaces(
            rs,
            key_of(entries[k].current),
        ) && replacement_for(rs, key_of(entries[k].current)) == rs[j as int],
        found is None ==> next_value(entries[k], rs) == entries[k].current && !replaces(
            rs,
            key_of(entries[k].current),
        ),
{
    match found {
        Some(j) => {
            assert(reps[j as int].1 == k);
            assert(rs[j as int] == rv(reps[j as int].0));
            lemma_replacement_at(rs, j as int);
        },
        None => {
            if replaces(rs, key_of(entries[k].current)) {
                let j = choose|j: int| 0 <= j < rs.len() && key_of(rs[j]) == key_of(entries[k].current);
                assert(rs[j] == rv(reps[j].0));
                assert(reps[j].1 != k);
                assert(key_of(entries[reps[j].1 as int].current) == key_of(entries[k].current));
            }
        },
    }
}

impl CoverageWorkingSet {
    fn replacement_index(reps: &Vec<(EnvironmentCellRecord, usize)>, k: usize) -> (r: Option<usize>)
        ensures
            r matches Some(j) ==> j < reps@.len() && reps@[j as int].1 == k,
            r is None ==> forall|j: int| 0 <= j < reps@.len() ==> (#[trigger] reps@[j]).1 != k,
    {
        let mut j: usize = 0;
        while j < reps.len()
            invariant
                j <= reps@.len(),
                forall|q: int| 0 <= q < j ==> (#[trigger] reps@[q]).1 != k,
            decreases reps@.len() - j,
        {
            if reps[j].1 == k {
                return Some(j);
            }
            j = j + 1;
        }
        None
    }

    /// The bound that the replacements would break, if any.
    fn limit_check(&self, reps: &Vec<(EnvironmentCellRecord, usize)>, Ghost(rs): Ghost<Seq<RecordView>>) -> (r: Option<String>)
        requires
            self.wf(),
            replacements_fit(self@.entries, reps@, rs),
        ensures
            match limit_error(self@.entries, rs) {
                Some(e) => r matches Some(m) && m@ == e,
                None => r is None,
            },
    {
        let ghost s = self@.entries;
        let mut dirty: usize = 0;
        let mut dirty_bytes: usize = 0;
        let mut retained: usize = 0;
        let mut k: usize = 0;
        while k < self.entries.len()
            invariant
                self.wf(),
                s == self@.entries,
                replacements_fit(s, reps@, rs),
                k <= s.len(),
                dirty == dirty_after(s.take(k as int), rs),
                dirty <= k,
                dirty_bytes == if dirty_bytes_after(s.take(k as int), rs) <= usize::MAX {
                    dirty_bytes_after(s.take(k as int), rs)
                } else {
                    usize::MAX as int
                },
                retained == if retained_after(s.take(k as int), rs) <= usize::MAX {
                    retained_after(s.take(k as int), rs)
                } else {
                    usize::MAX as int
                },
                dirty_bytes_after(s.take(k as int), rs) >= 0,
                retained_after(s.take(k as int), rs) >= 0,
            decreases s.len() - k,
        {
            proof {
                self.lemma_view_index(k as int);
                assert(s.take(k + 1).drop_last() =~= s.take(k as int));
                assert(s.take(k + 1).last() == s[k as int]);
            }
            let found = Self::replacement_index(reps, k);
            proof {
                lemma_next_value(s, reps@, rs, k as int, found);
            }
            let e = &self.entries[k];
            let next: &EnvironmentCellRecord = match found {
                Some(j) => &reps[j].0,
                None => &e.current,
            };
            proof {
                assert(rv(*next) == next_value(s[k as int], rs));
                lemma_record_bytes_nonnegative(rv(*next));
                if s[k as int].base is Some {
                    lemma_record_bytes_nonnegative(s[k as int].base->0);
                }
                if s[k as int].runtime is Some {
                    lemma_record_bytes_nonnegative(s[k as int].runtime->0);
                }
            }
            if !same_dense_content(&e.base, next) {
                dirty = dirty + 1;
                dirty_bytes = dirty_bytes.saturating_add(dense_record_bytes(next));
            }
            let base_bytes = match &e.base {
                Some(x) => dense_record_bytes(x),
                None => 0,
            };
            let runtime_bytes = match &e.runtime {
                Some(x) => dense_record_bytes(x),
                None => 0,
            };
            retained = retained.saturating_add(base_bytes).saturating_add(dense_record_bytes(next)).saturating_add(runtime_bytes);
            k = k + 1;
        }
        proof {
            assert(s.take(k as int) =~= s);
        }
        if dirty > MAX_DENSE_DOMAIN_WRITES_PER_TRANSACTION || dirty_bytes > MAX_DIRTY_COVERAGE_BYTES {
            return Some(String::from_str("Save these changes before painting more area"));
        }
        if retained > MAX_RETAINED_COVERAGE_BYTES || self.entries.len() > MAX_COVERAGE_ENTRIES {
            return Some(
                String::from_str(
                    "Publish changes and clear undo history to release the retained painting area",
                ),
            );
        }
        None
    }
}

impl CoverageWorkingSet {
    /// Installs the replacements that change coverage; reports whether any did.
    fn apply_replacements(&mut self, reps: &Vec<(EnvironmentCellRecord, usize)>, Ghost(rs): Ghost<Seq<RecordView>>) -> (changed: bool)
        requires
            old(self).wf(),
            replacements_fit(old(self)@.entries, reps@, rs),
            forall|a: int| 0 <= a < rs.len() ==> same_shape(
                entry_at(old(self)@.entries, key_of(#[trigger] rs[a])).current,
                rs[a],
            ),
        ensures
            final(self).wf(),
            final(self)@.entries == old(self)@.entries.map_values(|e: EntryView| replaced_entry(e, rs)),
            changed == any_replaced(old(self)@.entries, rs),
            final(self)@.edit_revision == old(self)@.edit_revision,
            final(self)@.last_completed_query == old(self)@.last_completed_query,
            final(self)@.gesture_active == old(self)@.gesture_active,
    {
        let ghost s = self@.entries;
        let mut changed = false;
        let mut j: usize = 0;
        while j < reps.len()
            invariant
                self.wf(),
                s.len() == self@.entries.len(),
                coverage_inv(CoverageView { entries: s, edit_revision: 0, last_completed_query: 0, gesture_active: false }),
                replacements_fit(s, reps@, rs),
                forall|a: int| 0 <= a < rs.len() ==> same_shape(
                    entry_at(s, key_of(#[trigger] rs[a])).current,
                    rs[a],
                ),
                j <= reps@.len(),
                forall|k: int|
                    0 <= k < s.len() ==> self@.entries[k] == if exists|q: int| 0 <= q < j && (#[trigger] reps@[q]).1 == k {
                        replaced_entry(s[k], rs)
                    } else {
                        s[k]
                    },
                changed == exists|q: int| 0 <= q < j && replaced_entry(s[(#[trigger] reps@[q]).1 as int], rs) != s[reps@[q].1 as int],
                self@.edit_revision == old(self)@.edit_revision,
                self@.last_completed_query == old(self)@.last_completed_query,
                self@.gesture_active == old(self)@.gesture_active,
            decreases reps@.len() - j,
        {
            let idx = reps[j].1;
            proof {
                self.lemma_view_index(idx as int);
                lemma_next_value(s, reps@, rs, idx as int, Some(j));
                assert(self@.entries[idx as int] == s[idx as int]) by {
                    if exists|q: int| 0 <= q < j && (#[trigger] reps@[q]).1 == idx {
                        let q = choose|q: int| 0 <= q < j && (#[trigger] reps@[q]).1 == idx;
                        assert(rs[q] == rv(reps@[q].0));
                        assert(rs[j as int] == rv(reps@[j as int].0));
                        assert(key_of(rs[q]) == key_of(rs[j as int]));
                    }
                }
                lemma_unique_index(s, idx as int);
            }
            let rep = copy_record(&reps[j].0);
            let e = &self.entries[idx];
            let current = Some(copy_record(&e.current));
            if !same_dense_content(&current, &rep) {
                let next = DenseEditEntry {
                    base: copy_option(&e.base),
                    current: rep,
                    runtime: copy_option(&e.runtime),
                    save_state: DenseSaveState::Idle,
                };
                proof {
                    assert(ev(next) == replaced_entry(s[idx as int], rs));
                }
                self.replace_at(idx, next);
                changed = true;
            } else {
                proof {
                    assert(replaced_entry(s[idx as int], rs) == s[idx as int]);
                }
            }
            proof {
                assert forall|k: int|
                    0 <= k < s.len() implies self@.entries[k] == if exists|q: int| 0 <= q < j + 1 && (#[trigger] reps@[q]).1 == k {
                        replaced_entry(s[k], rs)
                    } else {
                        s[k]
                    } by {
                    if k == idx {
                        assert(reps@[j as int].1 == k);
                    } else {
                        if exists|q: int| 0 <= q < j + 1 && (#[trigger] reps@[q]).1 == k {
                            let q = choose|q: int| 0 <= q < j + 1 && (#[trigger] reps@[q]).1 == k;
                            assert(q != j);
                        }
                    }
                }
                if changed {
                    if !(exists|q: int| 0 <= q < j && replaced_entry(s[(#[trigger] reps@[q]).1 as int], rs) != s[reps@[q].1 as int]) {
                        assert(replaced_entry(s[reps@[j as int].1 as int], rs) != s[reps@[j as int].1 as int]);
                    }
                }
            }
            j = j + 1;
        }
        proof {
            assert forall|k: int| 0 <= k < s.len() implies self@.entries[k] == replaced_entry(s[k], rs) by {
                if !(exists|q: int| 0 <= q < j && (#[trigger] reps@[q]).1 == k) {
                    lemma_next_value(s, reps@, rs, k, None);
                }
            }
            assert(self@.entries =~= s.map_values(|e: EntryView| replaced_entry(e, rs)));
            if any_replaced(s, rs) {
                let i = choose|i: int| 0 <= i < s.len() && replaced_entry(#[trigger] s[i], rs) != s[i];
                if !(exists|q: int| 0 <= q < j && (#[trigger] reps@[q]).1 == i) {
                    lemma_next_value(s, reps@, rs, i, None);
                } else {
                    let q = choose|q: int| 0 <= q < j && (#[trigger] reps@[q]).1 == i;
                    assert(replaced_entry(s[reps@[q].1 as int], rs) != s[reps@[q].1 as int]);
                }
            }
        }
        changed
    }

    /// Applies a coverage command: every record replaces the local value of its cell, all or
    /// none. The command is refused when a cell is not loaded, a tile does not fit the space's
    /// layer definition, a cell's save is in flight or in conflict or its definition changed, a
    /// cell occurs twice, or the result would exceed what one save may write or what the
    /// working set may retain. Records take the definition's revision and keep the local
    /// value's source revision; a record with other coverage resets the cell's save state.
    pub fn apply_environment_records(
        &mut self,
        records: &[EnvironmentCellRecord],
        definitions: &[CoverageDefinition],
    ) -> (r: Result<(), String>)
        requires
            old(self).wf(),
        ensures
            final(self).wf(),
            (final(self)@, r is Ok) == records_model(old(self)@, definitions@, record_views(records@)),
            match command_replacements(old(self)@.entries, definitions@, record_views(records@)) {
                Err(e) => (r matches Err(m) && m@ == e) && final(self)@ == old(self)@,
                Ok(reps) => match limit_error(old(self)@.entries, reps) {
                    Some(e) => (r matches Err(m) && m@ == e) && final(self)@ == old(self)@,
                    None => r is Ok && final(self)@ == (CoverageView {
                        entries: old(self)@.entries.map_values(|e: EntryView| replaced_entry(e, reps)),
                        edit_revision: if any_replaced(old(self)@.entries, reps) {
                            bumped(old(self)@.edit_revision)
                        } else {
                            old(self)@.edit_revision
                        },
                        ..old(self)@
                    }),
                },
            },
    {
        let reps = match self.prepare_command(records, definitions) {
            Ok(reps) => reps,
            Err(e) => {
                return Err(e);
            },
        };
        let ghost rs = command_replacements(self@.entries, definitions@, record_views(records@))->Ok_0;
        proof {
            lemma_replacements_distinct(self@.entries, definitions@, record_views(records@));
        }
        match self.limit_check(&reps, Ghost(rs)) {
            Some(e) => {
                return Err(e);
            },
            None => {},
        }
        let changed = self.apply_replacements(&reps, Ghost(rs));
        if changed {
            self.bump_revision();
        }
        Ok(())
    }
}

/// One write of a dense save transaction: the record, and the source revision the database
/// must still hold (none for a record that does not exist yet).
#[derive(Debug)]
pub struct DenseSourceWrite {
    pub expected_source_revision: Option<i64>,
    pub record: EnvironmentCellRecord,
}

/// A write by value.
pub struct WriteView {
    pub expected_source_revision: Option<i64>,
    pub record: RecordView,
}

/// A write by value.
pub open spec fn wv(w: DenseSourceWrite) -> WriteView {
    WriteView { expected_source_revision: w.expected_source_revision, record: rv(w.record) }
}

/// The write of an entry: its local value, expected over its checkpoint's revision.
pub open spec fn write_of(e: EntryView) -> WriteView {
    WriteView {
        expected_source_revision: match e.base {
            Some(b) => Some(b.source_revision),
            None => None,
        },
        record: e.current,
    }
}

/// The writes of the dirty entries, in order of their cells.
pub open spec fn queued_writes(s: Seq<EntryView>) -> Seq<WriteView> {
    sort_by_rank(dirty_positions(s)).map_values(|p: (Rank, usize)| write_of(s[p.1 as int]))
}

/// The entries once the dirty ones are saving in a request.
pub open spec fn marked_saving(s: Seq<EntryView>, request_id: u64) -> Seq<EntryView> {
    s.map_values(
        |e: EntryView|
            if is_dirty(e) {
                EntryView { state: SaveStateView::Saving(request_id), ..e }
            } else {
                e
            },
    )
}

impl CoverageWorkingSet {
    /// The dirty entries' positions in order of their cells.
    fn dirty_order(&self) -> (order: Vec<(Rank, usize)>)
        ensures
            order@ == sort_by_rank(dirty_positions(self@.entries)),
            forall|k: int| 0 <= k < order@.len() ==> #[trigger] order@[k].1 < self@.entries.len(),
    {
        let mut order: Vec<(Rank, usize)> = Vec::new();
        let mut i: usize = 0;
        while i < self.entries.len()
            invariant
                i <= self.entries@.len(),
                order@ == dirty_positions(self@.entries.take(i as int)),
            decreases self.entries@.len() - i,
        {
            proof {
                self.lemma_view_index(i as int);
                assert(self@.entries.take(i + 1).drop_last() =~= self@.entries.take(i as int));
            }
            let e = &self.entries[i];
            if entry_dirty(e) {
                order.push((cell_rank(e.current.space, e.current.cell), i));
            }
            i = i + 1;
        }
        proof {
            assert(self@.entries.take(i as int) =~= self@.entries);
            lemma_positions_in_range(self@.entries);
        }
        let ghost positions = order@;
        sort_ranked(&mut order);
        proof {
            law_sort_by_rank_orders(positions);
            assert forall|k: int| 0 <= k < order@.len() implies #[trigger] order@[k].1 < self@.entries.len() by {
                let x = order@[k];
                assert(order@.contains(x));
                vstd::seq_lib::to_multiset_contains(order@, x);
                vstd::seq_lib::to_multiset_contains(positions, x);
                let j = choose|j: int| 0 <= j < positions.len() && positions[j] == x;
            }
        }
        order
    }

    /// Queues one dense save transaction in the project store with the writes of every dirty
    /// cell, in order of their cells; those cells are then saving in the request. Nothing is
    /// queued while another domain of the transaction is saving or in conflict
    /// (`others_blocked`), a cell is saving or in conflict, more cells are dirty than one save
    /// may write, a gesture is under way, or the store refuses; the store is asked only when
    /// this or another domain (`others_have_writes`) has something to write. The writes are
    /// handed back to send.
    pub fn queue_save(
        &mut self,
        project: &mut ProjectEditorStore,
        others_blocked: bool,
        others_have_writes: bool,
    ) -> (writes: Option<Vec<DenseSourceWrite>>)
        requires
            old(self).wf(),
        ensures
            final(self).wf(),
            writes is None ==> final(self)@ == old(self)@,
            (others_blocked || any_where(old(self)@.entries, |e: EntryView| is_saving(e)) || any_where(
                old(self)@.entries,
                |e: EntryView| is_conflict(e),
            ) || count_where(old(self)@.entries, |e: EntryView| is_dirty(e))
                > MAX_DENSE_DOMAIN_WRITES_PER_TRANSACTION || old(self)@.gesture_active)
                ==> writes is None && final(project)@ == old(project)@,
            !(others_blocked || any_where(old(self)@.entries, |e: EntryView| is_saving(e)) || any_where(
                old(self)@.entries,
                |e: EntryView| is_conflict(e),
            ) || count_where(old(self)@.entries, |e: EntryView| is_dirty(e))
                > MAX_DENSE_DOMAIN_WRITES_PER_TRANSACTION || old(self)@.gesture_active) ==> {
                let has_writes = queued_writes(old(self)@.entries).len() > 0 || others_have_writes;
                &&& (writes is Some <==> (has_writes && can_queue_save(old(project)@)))
                &&& writes is None ==> final(project)@ == old(project)@
                &&& writes matches Some(w) ==> {
                    &&& w@.map_values(|x: DenseSourceWrite| wv(x)) == queued_writes(old(self)@.entries)
                    &&& final(project)@ == (ProjectStoreView {
                        next_save_request_id: next_id(old(project)@.next_save_request_id),
                        pending_dense_save: Some(next_id(old(project)@.next_save_request_id)),
                        ..old(project)@
                    })
                    &&& final(self)@ == (CoverageView {
                        entries: marked_saving(
                            old(self)@.entries,
                            next_id(old(project)@.next_save_request_id),
                        ),
                        ..old(self)@
                    })
                }
            },
    {
        if others_blocked || self.saving() || self.has_any_conflict() {
            return None;
        }
        let dirty = self.dirty_count();
        if dirty > MAX_DENSE_DOMAIN_WRITES_PER_TRANSACTION || self.gesture_active {
            return None;
        }
        let order = self.dirty_order();
        proof {
            lemma_positions_count(self@.entries);
            law_sort_by_rank_orders(dirty_positions(self@.entries));
        }
        let mut writes: Vec<DenseSourceWrite> = Vec::new();
        let mut j: usize = 0;
        while j < order.len()
            invariant
                j <= order@.len(),
                order@ == sort_by_rank(dirty_positions(self@.entries)),
                forall|k: int| 0 <= k < order@.len() ==> #[trigger] order@[k].1 < self@.entries.len(),
                writes@.map_values(|x: DenseSourceWrite| wv(x)) == order@.take(j as int).map_values(
                    |p: (Rank, usize)| write_of(self@.entries[p.1 as int]),
                ),
            decreases order@.len() - j,
        {
            let index = order[j].1;
            proof {
                assert(order@[j as int].1 < self@.entries.len());
                self.lemma_view_index(index as int);
            }
            let e = &self.entries[index];
            let ghost before = writes@;
            writes.push(
                DenseSourceWrite {
                    expected_source_revision: match &e.base {
                        Some(b) => Some(b.source_revision),
                        None => None,
                    },
                    record: copy_record(&e.current),
                },
            );
            proof {
                assert(wv(writes@.last()) == write_of(self@.entries[index as int]));
                assert(writes@.map_values(|x: DenseSourceWrite| wv(x)) =~= before.map_values(
                    |x: DenseSourceWrite| wv(x),
                ).push(wv(writes@.last())));
                assert(order@.take(j + 1).map_values(|p: (Rank, usize)| write_of(self@.entries[p.1 as int]))
                    =~= order@.take(j as int).map_values(
                    |p: (Rank, usize)| write_of(self@.entries[p.1 as int]),
                ).push(write_of(self@.entries[index as int])));
            }
            j = j + 1;
        }
        proof {
            assert(order@.take(j as int) =~= order@);
        }
        let has_writes = writes.len() > 0 || others_have_writes;
        let request_id = match project.queue_dense_transaction(has_writes) {
            Some(id) => id,
            None => {
                return None;
            },
        };
        self.mark_dirty_saving(request_id);
        Some(writes)
    }

    fn mark_dirty_saving(&mut self, request_id: u64)
        requires
            old(self).wf(),
        ensures
            final(self).wf(),
            final(self)@ == (CoverageView {
                entries: marked_saving(old(self)@.entries, request_id),
                ..old(self)@
            }),
    {
        let ghost s = self@.entries;
        let mut i: usize = 0;
        while i < self.entries.len()
            invariant
                self.wf(),
                s.len() == self@.entries.len(),
                i <= s.len(),
                forall|k: int| 0 <= k < i ==> self@.entries[k] == marked_saving(s, request_id)[k],
                forall|k: int| i <= k < s.len() ==> self@.entries[k] == s[k],
                self@.edit_revision == old(self)@.edit_revision,
                self@.last_completed_query == old(self)@.last_completed_query,
                self@.gesture_active == old(self)@.gesture_active,
            decreases s.len() - i,
        {
            proof {
                self.lemma_view_index(i as int);
            }
            if entry_dirty(&self.entries[i]) {
                let e = self.entry_copy(i);
                let DenseEditEntry { base, current, runtime, save_state: _ } = e;
                let next = DenseEditEntry { base, current, runtime, save_state: DenseSaveState::Saving(request_id) };
                self.replace_at(i, next);
            }
            i = i + 1;
        }
        proof {
            assert(self@.entries =~= marked_saving(s, request_id));
        }
    }
}

proof fn lemma_positions_count(s: Seq<EntryView>)
    ensures
        dirty_positions(s).len() == count_where(s, |e: EntryView| is_dirty(e)),
    decreases s.len(),
{
    if s.len() > 0 {
        lemma_positions_count(s.drop_last());
    }
}

/// Whether a record of the cell was loaded.
pub open spec fn loaded_has(fresh: Seq<RecordView>, k: CoverageKey) -> bool {
    exists|i: int| 0 <= i < fresh.len() && key_of(fresh[i]) == k
}

/// An entry stays when it is pinned, was loaded again, or undo history may still need it.
pub open spec fn stays(e: EntryView, fresh: Seq<RecordView>, history: Seq<CoverageKey>) -> bool {
    is_pinned(e) || loaded_has(fresh, key_of(e.current)) || history.contains(key_of(e.current))
}

/// The entries that stay, in order.
pub open spec fn staying(s: Seq<EntryView>, fresh: Seq<RecordView>, history: Seq<CoverageKey>) -> Seq<
    EntryView,
>
    decreases s.len(),
{
    if s.len() == 0 {
        Seq::empty()
    } else if stays(s.last(), fresh, history) {
        staying(s.drop_last(), fresh, history).push(s.last())
    } else {
        staying(s.drop_last(), fresh, history)
    }
}

/// The entries after one loaded record: it is taken as saved (checkpoint, local value and
/// baseline) unless its space's definition is in conflict or its cell's entry is pinned.
pub open spec fn fresh_step(s: Seq<EntryView>, r: RecordView, conflicted: Seq<WorldSpaceId>) -> Seq<
    EntryView,
> {
    if conflicted.contains(r.space) {
        s
    } else if has_cell(s, key_of(r)) && is_pinned(entry_at(s, key_of(r))) {
        s
    } else {
        put_entry(s, loaded_entry(r))
    }
}

/// The entries after the loaded records, in order.
pub open spec fn apply_fresh(s: Seq<EntryView>, fresh: Seq<RecordView>, conflicted: Seq<WorldSpaceId>) -> Seq<
    EntryView,
>
    decreases fresh.len(),
{
    if fresh.len() == 0 {
        s
    } else {
        fresh_step(apply_fresh(s, fresh.drop_last(), conflicted), fresh.last(), conflicted)
    }
}

proof fn lemma_staying_unique(s: Seq<EntryView>, fresh: Seq<RecordView>, history: Seq<CoverageKey>)
    requires
        coverage_inv(CoverageView { entries: s, edit_revision: 0, last_completed_query: 0, gesture_active: false }),
    ensures
        coverage_inv(
            CoverageView {
                entries: staying(s, fresh, history),
                edit_revision: 0,
                last_completed_query: 0,
                gesture_active: false,
            },
        ),
        forall|i: int|
            0 <= i < staying(s, fresh, history).len() ==> s.contains(#[trigger] staying(s, fresh, history)[i]),
    decreases s.len(),
{
    if s.len() > 0 {
        let t = s.drop_last();
        assert forall|a: int, b: int|
            0 <= a < t.len() && 0 <= b < t.len() && a != b implies key_of(t[a].current) != key_of(
                t[b].current,
            ) by {
            assert(t[a] == s[a] && t[b] == s[b]);
        }
        lemma_staying_unique(t, fresh, history);
        let prev = staying(t, fresh, history);
        assert forall|i: int| 0 <= i < prev.len() implies s.contains(#[trigger] prev[i]) by {
            assert(t.contains(prev[i]));
            let j = choose|j: int| 0 <= j < t.len() && t[j] == prev[i];
            assert(s[j] == prev[i]);
        }
        if stays(s.last(), fresh, history) {
            let cur = staying(s, fresh, history);
            assert(cur == prev.push(s.last()));
            assert forall|a: int, b: int|
                0 <= a < cur.len() && 0 <= b < cur.len() && a != b implies key_of(cur[a].current)
                    != key_of(cur[b].current) by {
                if a == prev.len() && b < prev.len() {
                    assert(s.contains(prev[b]));
                    let j = choose|j: int| 0 <= j < s.len() && s[j] == prev[b];
                    assert(t.contains(prev[b]));
                    let jt = choose|jt: int| 0 <= jt < t.len() && t[jt] == prev[b];
                    assert(s[jt] == prev[b]);
                    assert(jt != s.len() - 1);
                }
                if b == prev.len() && a < prev.len() {
                    assert(t.contains(prev[a]));
                    let jt = choose|jt: int| 0 <= jt < t.len() && t[jt] == prev[a];
                    assert(s[jt] == prev[a]);
                }
            }
            assert forall|i: int| 0 <= i < cur.len() implies s.contains(#[trigger] cur[i]) by {
                if i == prev.len() {
                    assert(s[s.len() - 1] == cur[i]);
                }
            }
        }
    }
}

impl CoverageWorkingSet {
    /// Takes in the records of a newly completed project query, once per query: entries that
    /// are not pinned, not loaded again and not needed by undo history are evicted; loaded
    /// records are taken as saved, except for pinned cells and spaces whose definition is in
    /// conflict.
    pub fn reconcile(
        &mut self,
        completed_queries: u64,
        fresh: &[EnvironmentCellRecord],
        history_cells: &[CoverageKey],
        conflicted_spaces: &[WorldSpaceId],
    )
        requires
            old(self).wf(),
        ensures
            final(self).wf(),
            old(self)@.last_completed_query == completed_queries ==> final(self)@ == old(self)@,
            old(self)@.last_completed_query != completed_queries ==> final(self)@ == (CoverageView {
                entries: apply_fresh(
                    staying(old(self)@.entries, record_views(fresh@), history_cells@),
                    record_views(fresh@),
                    conflicted_spaces@,
                ),
                last_completed_query: completed_queries,
                ..old(self)@
            }),
    {
        if self.last_completed_query == completed_queries {
            return;
        }
        self.last_completed_query = completed_queries;
        let ghost s = self@.entries;
        let ghost views = record_views(fresh@);
        let mut kept: Vec<DenseEditEntry> = Vec::new();
        let mut i: usize = 0;
        while i < self.entries.len()
            invariant
                i <= self.entries@.len(),
                s == self@.entries,
                views == record_views(fresh@),
                kept@.map_values(|e: DenseEditEntry| ev(e)) == staying(s.take(i as int), views, history_cells@),
            decreases self.entries@.len() - i,
        {
            proof {
                self.lemma_view_index(i as int);
                assert(s.take(i + 1).drop_last() =~= s.take(i as int));
            }
            let e = &self.entries[i];
            let key = (e.current.space, e.current.cell);
            let mut loaded = false;
            let mut j: usize = 0;
            while j < fresh.len()
                invariant
                    j <= fresh@.len(),
                    views == record_views(fresh@),
                    key == (e.current.space, e.current.cell),
                    loaded <==> exists|q: int| 0 <= q < j && key_of(views[q]) == key,
                decreases fresh@.len() - j,
            {
                if fresh[j].space == e.current.space && fresh[j].cell == e.current.cell {
                    loaded = true;
                }
                proof {
                    assert(key_of(views[j as int]) == (fresh@[j as int].space, fresh@[j as int].cell));
                }
                j = j + 1;
            }
            let mut in_history = false;
            let mut h: usize = 0;
            while h < history_cells.len()
                invariant
                    h <= history_cells@.len(),
                    in_history <==> exists|q: int| 0 <= q < h && history_cells@[q] == key,
                decreases history_cells@.len() - h,
            {
                if history_cells[h].0 == key.0 && history_cells[h].1 == key.1 {
                    in_history = true;
                }
                h = h + 1;
            }
            proof {
                assert(in_history == history_cells@.contains(key));
                assert(loaded == loaded_has(views, key));
            }
            if entry_pinned(e) || loaded || in_history {
                let ghost before = kept@;
                kept.push(self.entry_copy(i));
                proof {
                    assert(kept@.map_values(|x: DenseEditEntry| ev(x)) =~= before.map_values(
                        |x: DenseEditEntry| ev(x),
                    ).push(s[i as int]));
                }
            }
            i = i + 1;
        }
        proof {
            assert(s.take(i as int) =~= s);
            lemma_staying_unique(s, views, history_cells@);
        }
        self.entries = kept;
        let ghost start = self@.entries;
        let mut k: usize = 0;
        while k < fresh.len()
            invariant
                self.wf(),
                k <= fresh@.len(),
                views == record_views(fresh@),
                self@.entries == apply_fresh(start, views.take(k as int), conflicted_spaces@),
                self@.last_completed_query == completed_queries,
                self@.edit_revision == old(self)@.edit_revision,
                self@.gesture_active == old(self)@.gesture_active,
            decreases fresh@.len() - k,
        {
            proof {
                assert(views.take(k + 1).drop_last() =~= views.take(k as int));
                assert(views[k as int] == rv(fresh@[k as int]));
            }
            let record = &fresh[k];
            let mut conflicted = false;
            let mut c: usize = 0;
            while c < conflicted_spaces.len()
                invariant
                    c <= conflicted_spaces@.len(),
                    conflicted <==> exists|q: int| 0 <= q < c && conflicted_spaces@[q] == record.space,
                decreases conflicted_spaces@.len() - c,
            {
                if conflicted_spaces[c] == record.space {
                    conflicted = true;
                }
                c = c + 1;
            }
            proof {
                assert(conflicted == conflicted_spaces@.contains(record.space));
            }
            if !conflicted {
                let take = match self.find(record.space, record.cell) {
                    Some(i) => {
                        proof {
                            self.lemma_view_index(i as int);
                        }
                        !entry_pinned(&self.entries[i])
                    },
                    None => true,
                };
                if take {
                    let positive = record.source_revision > 0;
                    let entry = DenseEditEntry {
                        base: if positive {
                            Some(copy_record(record))
                        } else {
                            None
                        },
                        current: copy_record(record),
                        runtime: if positive {
                            Some(copy_record(record))
                        } else {
                            None
                        },
                        save_state: DenseSaveState::Idle,
                    };
                    proof {
                        assert(ev(entry) == loaded_entry(views[k as int]));
                    }
                    self.put(entry);
                }
            }
            k = k + 1;
        }
        proof {
            assert(views.take(k as int) =~= views);
        }
    }
}

/// How a dense save transaction ended, as far as coverage is concerned.
#[derive(Debug)]
pub enum DenseSaveOutcome {
    /// Committed; the database now holds these coverage records.
    Committed(Vec<EnvironmentCellRecord>),
    /// Another domain of the transaction (roads, definitions, presets) conflicted; nothing was
    /// written.
    DomainConflict,
    /// The database held another record (or none) for the cell than expected.
    Conflict { key: CoverageKey, actual: Option<EnvironmentCellRecord> },
    Failed(String),
}

/// The save state an entry of the request takes.
pub open spec fn settled(e: EntryView, request_id: u64, outcome: DenseSaveOutcome) -> EntryView {
    if e.state == SaveStateView::Saving(request_id) {
        EntryView {
            state: match outcome {
                DenseSaveOutcome::Conflict { key, actual } => if key_of(e.current) == key {
                    SaveStateView::Conflict(orv(actual))
                } else {
                    SaveStateView::Idle
                },
                DenseSaveOutcome::Failed(m) => SaveStateView::Failed(m@),
                _ => SaveStateView::Idle,
            },
            ..e
        }
    } else {
        e
    }
}

/// The entries after one committed record: the cell's checkpoint and local value become it.
pub open spec fn commit_step(s: Seq<EntryView>, c: RecordView) -> Seq<EntryView> {
    if has_cell(s, key_of(c)) {
        s.update(
            choose|i: int| 0 <= i < s.len() && key_of(s[i].current) == key_of(c),
            EntryView { base: Some(c), current: c, state: SaveStateView::Idle, ..entry_at(s, key_of(c)) },
        )
    } else {
        s
    }
}

/// The entries after the committed records, in order.
pub open spec fn apply_commits(s: Seq<EntryView>, commits: Seq<RecordView>) -> Seq<EntryView>
    decreases commits.len(),
{
    if commits.len() == 0 {
        s
    } else {
        commit_step(apply_commits(s, commits.drop_last()), commits.last())
    }
}

/// The entries after a save ends.
pub open spec fn finished_entries(s: Seq<EntryView>, request_id: u64, outcome: DenseSaveOutcome) -> Seq<
    EntryView,
> {
    let settled_all = s.map_values(|e: EntryView| settled(e, request_id, outcome));
    match outcome {
        DenseSaveOutcome::Committed(commits) => apply_commits(settled_all, record_views(commits@)),
        _ => settled_all,
    }
}

impl CoverageWorkingSet {
    /// Takes in how a save request ended: its cells leave the saving state (idle, in conflict
    /// for the conflicting cell, or failed); committed records become checkpoint and local
    /// value of their cells. The edit revision moves on.
    pub fn finish_save(&mut self, request_id: u64, outcome: DenseSaveOutcome)
        requires
            old(self).wf(),
        ensures
            final(self).wf(),
            final(self)@ == (CoverageView {
                entries: finished_entries(old(self)@.entries, request_id, outcome),
                edit_revision: bumped(old(self)@.edit_revision),
                ..old(self)@
            }),
    {
        let ghost s = self@.entries;
        let mut i: usize = 0;
        while i < self.entries.len()
            invariant
                self.wf(),
                s.len() == self@.entries.len(),
                i <= s.len(),
                forall|k: int| 0 <= k < i ==> self@.entries[k] == settled(#[trigger] s[k], request_id, outcome),
                forall|k: int| i <= k < s.len() ==> self@.entries[k] == s[k],
                self@.edit_revision == old(self)@.edit_revision,
                self@.last_completed_query == old(self)@.last_completed_query,
                self@.gesture_active == old(self)@.gesture_active,
            decreases s.len() - i,
        {
            proof {
                self.lemma_view_index(i as int);
            }
            let matching = match self.entries[i].save_state {
                DenseSaveState::Saving(id) => id == request_id,
                _ => false,
            };
            if matching {
                let state = match &outcome {
                    DenseSaveOutcome::Conflict { key, actual } => {
                        if key.0 == self.entries[i].current.space && key.1 == self.entries[i].current.cell {
                            DenseSaveState::Conflict(copy_option(actual))
                        } else {
                            DenseSaveState::Idle
                        }
                    },
                    DenseSaveOutcome::Failed(m) => DenseSaveState::Failed(m.clone()),
                    _ => DenseSaveState::Idle,
                };
                let e = self.entry_copy(i);
                let DenseEditEntry { base, current, runtime, save_state: _ } = e;
                let next = DenseEditEntry { base, current, runtime, save_state: state };
                proof {
                    assert(ev(next) == settled(s[i as int], request_id, outcome));
                }
                self.replace_at(i, next);
            } else {
                proof {
                    assert(settled(s[i as int], request_id, outcome) == s[i as int]);
                }
            }
            i = i + 1;
        }
        proof {
            assert(self@.entries =~= s.map_values(|e: EntryView| settled(e, request_id, outcome)));
        }
        match &outcome {
            DenseSaveOutcome::Committed(commits) => {
                let ghost start = self@.entries;
                let ghost cs = record_views(commits@);
                let mut j: usize = 0;
                while j < commits.len()
                    invariant
                        self.wf(),
                        j <= commits@.len(),
                        cs == record_views(commits@),
                        self@.entries == apply_commits(start, cs.take(j as int)),
                        self@.edit_revision == old(self)@.edit_revision,
                        self@.last_completed_query == old(self)@.last_completed_query,
                        self@.gesture_active == old(self)@.gesture_active,
                    decreases commits@.len() - j,
                {
                    proof {
                        assert(cs.take(j + 1).drop_last() =~= cs.take(j as int));
                        assert(cs[j as int] == rv(commits@[j as int]));
                    }
                    let c = &commits[j];
                    match self.find(c.space, c.cell) {
                        Some(idx) => {
                            proof {
                                self.lemma_view_index(idx as int);
                                lemma_unique_index(self@.entries, idx as int);
                            }
                            let e = self.entry_copy(idx);
                            let DenseEditEntry { base: _, current: _, runtime, save_state: _ } = e;
                            let next = DenseEditEntry {
                                base: Some(copy_record(c)),
                                current: copy_record(c),
                                runtime,
                                save_state: DenseSaveState::Idle,
                            };
                            self.replace_at(idx, next);
                        },
                        None => {},
                    }
                    j = j + 1;
                }
                proof {
                    assert(cs.take(j as int) =~= cs);
                }
            },
            _ => {},
        }
        self.bump_revision();
    }
}

/// A committed record becomes its cell's checkpoint and local value, so the cell is clean.
pub proof fn law_commit_makes_clean(s: Seq<EntryView>, c: RecordView)
    requires
        coverage_inv(CoverageView { entries: s, edit_revision: 0, last_completed_query: 0, gesture_active: false }),
        has_cell(s, key_of(c)),
    ensures
        has_cell(commit_step(s, c), key_of(c)),
        entry_at(commit_step(s, c), key_of(c)).current == c,
        !is_dirty(entry_at(commit_step(s, c), key_of(c))),
{
    let i = choose|i: int| 0 <= i < s.len() && key_of(s[i].current) == key_of(c);
    let t = commit_step(s, c);
    assert(t[i].current == c);
    assert forall|a: int, b: int|
        0 <= a < t.len() && 0 <= b < t.len() && a != b implies key_of(t[a].current) != key_of(
            t[b].current,
        ) by {
        if a != i {
            assert(t[a] == s[a]);
        }
        if b != i {
            assert(t[b] == s[b]);
        }
    }
    lemma_unique_index(t, i);
}

/// Once database records are accepted, no conflict that could be accepted remains: accepting
/// turns every entry into one without such a conflict.
pub proof fn law_accept_clears_acceptable_conflicts(e: EntryView)
    ensures
        !acceptable_conflict(accept_step(e)),
{
}

/// Once local values are kept, no conflict that could be kept remains.
pub proof fn law_keep_clears_keepable_conflicts(e: EntryView)
    ensures
        !keepable_conflict(keep_step(e)),
{
}

/// After a runtime generation is adopted, a cell differs from the runtime exactly when it is
/// dirty.
pub proof fn law_adopted_runtime_tracks_checkpoint(e: EntryView)
    ensures
        runtime_diverged(EntryView { runtime: e.base, ..e }) == is_dirty(
            EntryView { runtime: e.base, ..e },
        ),
{
}

/// A query never evicts a pinned cell: dirty, diverged or saving work stays.
pub proof fn law_pinned_cells_stay(
    s: Seq<EntryView>,
    fresh: Seq<RecordView>,
    history: Seq<CoverageKey>,
    i: int,
)
    requires
        0 <= i < s.len(),
        is_pinned(s[i]),
    ensures
        staying(s, fresh, history).contains(s[i]),
    decreases s.len(),
{
    if i == s.len() - 1 {
        assert(staying(s, fresh, history) == staying(s.drop_last(), fresh, history).push(s[i]));
        assert(staying(s, fresh, history)[staying(s.drop_last(), fresh, history).len() as int] == s[i]);
    } else {
        assert(s.drop_last()[i] == s[i]);
        law_pinned_cells_stay(s.drop_last(), fresh, history, i);
        let prev = staying(s.drop_last(), fresh, history);
        let k = choose|k: int| 0 <= k < prev.len() && prev[k] == s[i];
        if stays(s.last(), fresh, history) {
            assert(staying(s, fresh, history)[k] == s[i]);
        }
    }
}

/// A command that writes back the checkpoint's own coverage leaves the cell clean.
pub proof fn law_restoring_checkpoint_cleans(e: EntryView, reps: Seq<RecordView>)
    requires
        replaces(reps, key_of(e.current)),
        same_content(e.base, replacement_for(reps, key_of(e.current))),
    ensures
        !is_dirty(replaced_entry(e, reps)),
{
}

/// Every cell of the definition's space holds only tiles that fit the definition.
pub open spec fn fits_everywhere(s: Seq<EntryView>, d: CoverageDefinition) -> bool {
    forall|i: int|
        0 <= i < s.len() && (#[trigger] s[i]).current.space == d.space ==> fits_definition(
            s[i].current.tiles,
            d,
        )
}

/// A record of the space now refers to the definition revision.
pub open spec fn retarget_record(r: RecordView, space: WorldSpaceId, revision: u64) -> RecordView {
    if r.space == space {
        RecordView { definition_revision: revision, ..r }
    } else {
        r
    }
}

/// An optional record of the space now refers to the definition revision.
pub open spec fn retarget_option(r: Option<RecordView>, space: WorldSpaceId, revision: u64) -> Option<
    RecordView,
> {
    match r {
        Some(x) => Some(retarget_record(x, space, revision)),
        None => None,
    }
}

/// The checkpoint, local value and runtime baseline of a cell of the space refer to the
/// definition revision; the save state stays.
pub open spec fn retarget_entry(e: EntryView, space: WorldSpaceId, revision: u64) -> EntryView {
    EntryView {
        base: retarget_option(e.base, space, revision),
        current: retarget_record(e.current, space, revision),
        runtime: retarget_option(e.runtime, space, revision),
        state: e.state,
    }
}

fn retarget_copy(r: &EnvironmentCellRecord, space: WorldSpaceId, revision: u64) -> (c: EnvironmentCellRecord)
    ensures
        rv(c) == retarget_record(rv(*r), space, revision),
{
    let mut c = copy_record(r);
    if c.space == space {
        c.definition_revision = revision;
    }
    c
}

fn retarget_copy_option(r: &Option<EnvironmentCellRecord>, space: WorldSpaceId, revision: u64) -> (c: Option<
    EnvironmentCellRecord,
>)
    ensures
        orv(c) == retarget_option(orv(*r), space, revision),
{
    match r {
        Some(x) => Some(retarget_copy(x, space, revision)),
        None => None,
    }
}

impl CoverageWorkingSet {
    /// Brings the edit revision forward, as any change of the environment's sources does.
    pub fn touch(&mut self)
        ensures
            final(self)@ == (CoverageView { edit_revision: bumped(old(self)@.edit_revision), ..old(self)@ }),
    {
        self.bump_revision();
    }

    /// Whether some cell of the space must stay though its area is no longer loaded.
    pub fn space_pinned(&self, space: WorldSpaceId) -> (r: bool)
        ensures
            r == (exists|i: int|
                0 <= i < self@.entries.len() && (#[trigger] self@.entries[i]).current.space == space
                    && is_pinned(self@.entries[i])),
    {
        let mut i: usize = 0;
        while i < self.entries.len()
            invariant
                i <= self.entries@.len(),
                forall|k: int|
                    0 <= k < i ==> !((#[trigger] self@.entries[k]).current.space == space && is_pinned(
                        self@.entries[k],
                    )),
            decreases self.entries@.len() - i,
        {
            proof {
                self.lemma_view_index(i as int);
            }
            let e = &self.entries[i];
            let saving = match e.save_state {
                DenseSaveState::Saving(_) => true,
                _ => false,
            };
            if e.current.space == space && (entry_dirty(e) || entry_diverged(e) || saving) {
                return true;
            }
            i = i + 1;
        }
        false
    }

    /// Whether some cell must stay though its area is no longer loaded.
    pub fn any_pinned(&self) -> (r: bool)
        ensures
            r == any_where(self@.entries, |e: EntryView| is_pinned(e)),
    {
        let mut i: usize = 0;
        while i < self.entries.len()
            invariant
                i <= self.entries@.len(),
                forall|k: int| 0 <= k < i ==> !is_pinned(#[trigger] self@.entries[k]),
            decreases self.entries@.len() - i,
        {
            proof {
                self.lemma_view_index(i as int);
            }
            let e = &self.entries[i];
            let saving = match e.save_state {
                DenseSaveState::Saving(_) => true,
                _ => false,
            };
            if entry_dirty(e) || entry_diverged(e) || saving {
                assert(is_pinned(self@.entries[i as int]));
                return true;
            }
            i = i + 1;
        }
        false
    }

    /// Whether every local value of the definition's space holds only tiles of its layers with
    /// its mask's sample count.
    pub fn fits(&self, d: &CoverageDefinition) -> (r: bool)
        ensures
            r == fits_everywhere(self@.entries, *d),
    {
        let mut i: usize = 0;
        while i < self.entries.len()
            invariant
                i <= self.entries@.len(),
                forall|k: int|
                    0 <= k < i && (#[trigger] self@.entries[k]).current.space == d.space ==> fits_definition(
                        self@.entries[k].current.tiles,
                        *d,
                    ),
            decreases self.entries@.len() - i,
        {
            proof {
                self.lemma_view_index(i as int);
            }
            let e = &self.entries[i];
            if e.current.space == d.space && !tiles_fit(&e.current.tiles, d) {
                return false;
            }
            i = i + 1;
        }
        true
    }

    /// Makes every record of the space refer to a new definition revision.
    pub fn retarget_definition(&mut self, space: WorldSpaceId, revision: u64)
        requires
            old(self).wf(),
        ensures
            final(self).wf(),
            final(self)@ == (CoverageView {
                entries: old(self)@.entries.map_values(|e: EntryView| retarget_entry(e, space, revision)),
                ..old(self)@
            }),
    {
        let ghost s = self@.entries;
        let mut i: usize = 0;
        while i < self.entries.len()
            invariant
                self.wf(),
                s.len() == self@.entries.len(),
                i <= s.len(),
                forall|k: int| 0 <= k < i ==> self@.entries[k] == retarget_entry(#[trigger] s[k], space, revision),
                forall|k: int| i <= k < s.len() ==> self@.entries[k] == s[k],
                self@.edit_revision == old(self)@.edit_revision,
                self@.last_completed_query == old(self)@.last_completed_query,
                self@.gesture_active == old(self)@.gesture_active,
            decreases s.len() - i,
        {
            proof {
                self.lemma_view_index(i as int);
            }
            let e = &self.entries[i];
            let save_state = match &e.save_state {
                DenseSaveState::Idle => DenseSaveState::Idle,
                DenseSaveState::Saving(id) => DenseSaveState::Saving(*id),
                DenseSaveState::Conflict(actual) => DenseSaveState::Conflict(copy_option(actual)),
                DenseSaveState::Failed(error) => DenseSaveState::Failed(error.clone()),
            };
            let next = DenseEditEntry {
                base: retarget_copy_option(&e.base, space, revision),
                current: retarget_copy(&e.current, space, revision),
                runtime: retarget_copy_option(&e.runtime, space, revision),
                save_state,
            };
            proof {
                assert(ev(next) == retarget_entry(s[i as int], space, revision));
            }
            self.replace_at(i, next);
            i = i + 1;
        }
        proof {
            assert(self@.entries =~= s.map_values(|e: EntryView| retarget_entry(e, space, revision)));
        }
    }
}

} // verus!
