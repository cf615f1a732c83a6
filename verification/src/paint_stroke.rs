//! One environment paint stroke: the coverage each touched cell had before the stroke, the
//! budget one drag may use, and what the stroke leaves in the history when it ends.

use vstd::prelude::*;

use crate::commands::{editor_command_bytes, EditorCommand};
use crate::coverage::{
    cell_rank, command_replacements, copy_record, entry_at, has_cell, key_of, key_rank, limit_error,
    record_views, records_model, rv, same_tiles, sample_count, tiles_view, CoverageDefinition,
    CoverageView, CoverageWorkingSet, EntryView, RecordView, TileView,
};
use crate::history::{record_model, EditorHistory};
use crate::layers::LayerId;
use crate::objects::{capped, capped_add};
use crate::ranked::{lemma_sort_by_rank_map, sort_by_rank, sort_ranked, Rank};
use crate::stamps::{CoverageTile, EnvironmentCellRecord};
use crate::world::{CellCoord, WorldSpaceId};

verus! {

/// A stroke may touch at most this many cells.
pub const MAX_STROKE_CELLS: usize = 64;

/// A stroke's coverage before and after may take at most this many bytes.
pub const MAX_STROKE_BYTES: usize = 6291456;

/// The bytes counted for each record of a stroke beside its samples.
pub const STROKE_RECORD_BYTES: usize = 128;

/// An environment paint stroke under way: the space and layer painted, and the coverage of
/// each touched cell from before the stroke, in the order the cells were first touched.
pub struct PaintStroke {
    space: WorldSpaceId,
    layer: LayerId,
    before: Vec<EnvironmentCellRecord>,
}

/// A stroke by value.
pub struct StrokeView {
    pub space: WorldSpaceId,
    pub layer: LayerId,
    pub before: Seq<RecordView>,
}

impl View for PaintStroke {
    type V = StrokeView;

    closed spec fn view(&self) -> StrokeView {
        StrokeView { space: self.space, layer: self.layer, before: record_views(self.before@) }
    }
}

/// Some record of the stroke is of the cell.
pub open spec fn touched(before: Seq<RecordView>, cell: CellCoord) -> bool {
    exists|i: int| 0 <= i < before.len() && before[i].cell == cell
}

/// The stroke's record of a cell (meaningful when there is one).
pub open spec fn before_of(before: Seq<RecordView>, cell: CellCoord) -> RecordView {
    before[choose|i: int| 0 <= i < before.len() && before[i].cell == cell]
}

/// No two records of the stroke are of one cell.
pub open spec fn cells_unique(before: Seq<RecordView>) -> bool {
    forall|i: int, j: int| 0 <= i < j < before.len() ==> before[i].cell != before[j].cell
}

/// Every cell of the segment is loaded in the stroke's space.
pub open spec fn all_loaded(entries: Seq<EntryView>, space: WorldSpaceId, cells: Seq<CellCoord>) -> bool {
    forall|k: int| 0 <= k < cells.len() ==> has_cell(entries, (space, #[trigger] cells[k]))
}

/// What a segment changes, cell by cell: for each cell whose brushed tiles differ from its
/// coverage, the record it had before the stroke (its current one when the stroke has not
/// touched it yet) and its current record with the brushed tiles.
pub open spec fn segment_parts(
    before: Seq<RecordView>,
    entries: Seq<EntryView>,
    space: WorldSpaceId,
    cells: Seq<CellCoord>,
    results: Seq<Seq<TileView>>,
) -> (Seq<RecordView>, Seq<RecordView>)
    decreases cells.len(),
{
    if cells.len() == 0 || results.len() == 0 {
        (Seq::empty(), Seq::empty())
    } else {
        let prev = segment_parts(before, entries, space, cells.drop_last(), results.drop_last());
        let current = entry_at(entries, (space, cells.last())).current;
        if results.last() != current.tiles {
            let b = if touched(before, cells.last()) {
                before_of(before, cells.last())
            } else {
                current
            };
            (prev.0.push(b), prev.1.push(RecordView { tiles: results.last(), ..current }))
        } else {
            prev
        }
    }
}

/// The records of cells the stroke has not touched yet.
pub open spec fn untouched(before: Seq<RecordView>, originals: Seq<RecordView>) -> Seq<RecordView>
    decreases originals.len(),
{
    if originals.len() == 0 {
        Seq::empty()
    } else if touched(before, originals.last().cell) {
        untouched(before, originals.drop_last())
    } else {
        untouched(before, originals.drop_last()).push(originals.last())
    }
}

/// The bytes counted for one record of a stroke.
pub open spec fn stroke_record_bytes(r: RecordView) -> int {
    sample_count(r.tiles) + STROKE_RECORD_BYTES
}

/// The bytes counted for records of a stroke.
pub open spec fn stroke_records_bytes(s: Seq<RecordView>) -> int
    decreases s.len(),
{
    if s.len() == 0 {
        0
    } else {
        stroke_records_bytes(s.drop_last()) + stroke_record_bytes(s.last())
    }
}

/// The first replacement of a cell, if any.
pub open spec fn replacement_of(reps: Seq<RecordView>, cell: CellCoord) -> Option<RecordView>
    decreases reps.len(),
{
    if reps.len() == 0 {
        None
    } else if reps[0].cell == cell {
        Some(reps[0])
    } else {
        replacement_of(reps.drop_first(), cell)
    }
}

/// The bytes a record's cell takes after the segment: its replacement, else its current
/// record, else nothing.
pub open spec fn after_bytes(reps: Seq<RecordView>, entries: Seq<EntryView>, r: RecordView) -> int {
    match replacement_of(reps, r.cell) {
        Some(x) => stroke_record_bytes(x),
        None => if has_cell(entries, (r.space, r.cell)) {
            stroke_record_bytes(entry_at(entries, (r.space, r.cell)).current)
        } else {
            0
        },
    }
}

/// The bytes the cells of records take after the segment.
pub open spec fn after_total(reps: Seq<RecordView>, entries: Seq<EntryView>, s: Seq<RecordView>) -> int
    decreases s.len(),
{
    if s.len() == 0 {
        0
    } else {
        after_total(reps, entries, s.drop_last()) + after_bytes(reps, entries, s.last())
    }
}

/// The segment would take the stroke over its budget: more cells than it may touch, or more
/// bytes before and after than one entry of history may hold.
pub open spec fn over_budget(before: Seq<RecordView>, entries: Seq<EntryView>, originals: Seq<RecordView>, reps: Seq<RecordView>) -> bool {
    let fresh = untouched(before, originals);
    before.len() + fresh.len() > MAX_STROKE_CELLS || stroke_records_bytes(before) + stroke_records_bytes(fresh)
        + after_total(reps, entries, before + fresh) > MAX_STROKE_BYTES
}

/// Why writing records to the coverage is refused, if it is.
pub open spec fn records_error(c: CoverageView, defs: Seq<CoverageDefinition>, records: Seq<RecordView>) -> Option<Seq<char>> {
    match command_replacements(c.entries, defs, records) {
        Err(e) => Some(e),
        Ok(reps) => limit_error(c.entries, reps),
    }
}

/// The stroke's records with those of newly touched cells added, first touch first.
pub open spec fn with_touched(before: Seq<RecordView>, originals: Seq<RecordView>) -> Seq<RecordView>
    decreases originals.len(),
{
    if originals.len() == 0 {
        before
    } else {
        let prev = with_touched(before, originals.drop_last());
        if touched(prev, originals.last().cell) {
            prev
        } else {
            prev.push(originals.last())
        }
    }
}

/// Why a segment is refused, if it is: a cell is not loaded, the stroke would go over its
/// budget, or the coverage refuses the brushed records.
pub open spec fn segment_error(
    s: StrokeView,
    c: CoverageView,
    defs: Seq<CoverageDefinition>,
    cells: Seq<CellCoord>,
    results: Seq<Seq<TileView>>,
) -> Option<Seq<char>> {
    if !all_loaded(c.entries, s.space, cells) {
        Some("Loading paint area…"@)
    } else {
        let parts = segment_parts(s.before, c.entries, s.space, cells, results);
        if over_budget(s.before, c.entries, parts.0, parts.1) {
            Some("Release the brush to finish this stroke before painting more area"@)
        } else {
            records_error(c, defs, parts.1)
        }
    }
}

/// The tiles the brush gave each cell, by value.
pub open spec fn results_view(results: Seq<Vec<CoverageTile>>) -> Seq<Seq<TileView>> {
    results.map_values(|t: Vec<CoverageTile>| tiles_view(t@))
}

impl PaintStroke {
    /// The stroke's invariant: no two records of one cell.
    pub closed spec fn wf(&self) -> bool {
        cells_unique(self@.before)
    }

    /// Starts a stroke of a layer in a space; saves wait until it ends.
    pub fn begin(space: WorldSpaceId, layer: LayerId, dense: &mut CoverageWorkingSet) -> (s: PaintStroke)
        ensures
            s.wf(),
            s@.space == space && s@.layer == layer && s@.before.len() == 0,
            final(dense)@ == (CoverageView { gesture_active: true, ..old(dense)@ }),
    {
        dense.set_gesture_active(true);
        let s = PaintStroke { space, layer, before: Vec::new() };
        assert(s@.before =~= Seq::<RecordView>::empty());
        s
    }

    /// The space painted.
    pub fn space(&self) -> (r: WorldSpaceId)
        ensures
            r == self@.space,
    {
        self.space
    }

    /// The layer painted.
    pub fn layer(&self) -> (r: LayerId)
        ensures
            r == self@.layer,
    {
        self.layer
    }

    /// The coverage a cell had before the stroke, once the stroke has touched it; the brush
    /// paints from it.
    pub fn before_for(&self, cell: CellCoord) -> (r: Option<&EnvironmentCellRecord>)
        requires
            self.wf(),
        ensures
            r is Some <==> touched(self@.before, cell),
            r matches Some(x) ==> rv(*x) == before_of(self@.before, cell),
    {
        let mut i: usize = 0;
        while i < self.before.len()
            invariant
                self.wf(),
                i <= self.before@.len(),
                forall|k: int| 0 <= k < i ==> (#[trigger] self@.before[k]).cell != cell,
            decreases self.before@.len() - i,
        {
            assert(self@.before[i as int] == rv(self.before@[i as int]));
            if self.before[i].cell == cell {
                proof {
                    let j = choose|j: int| 0 <= j < self@.before.len() && self@.before[j].cell == cell;
                    if j != i {
                        if j < i {
                            assert(self@.before[j].cell != self@.before[i as int].cell);
                        } else {
                            assert(self@.before[i as int].cell != self@.before[j].cell);
                        }
                    }
                }
                return Some(&self.before[i]);
            }
            i = i + 1;
        }
        None
    }
}

proof fn lemma_sample_count_nonnegative(t: Seq<TileView>)
    ensures
        sample_count(t) >= 0,
    decreases t.len(),
{
    if t.len() > 0 {
        lemma_sample_count_nonnegative(t.drop_last());
    }
}

fn record_size(r: &EnvironmentCellRecord) -> (n: usize)
    ensures
        n == capped(stroke_record_bytes(rv(*r))),
        stroke_record_bytes(rv(*r)) >= 0,
{
    let ghost t = tiles_view(r.tiles@);
    let mut n: usize = STROKE_RECORD_BYTES;
    let mut i: usize = 0;
    while i < r.tiles.len()
        invariant
            i <= r.tiles@.len(),
            t == tiles_view(r.tiles@),
            n == capped(sample_count(t.take(i as int)) + STROKE_RECORD_BYTES),
            sample_count(t.take(i as int)) >= 0,
        decreases r.tiles@.len() - i,
    {
        proof {
            assert(t.take(i + 1).drop_last() =~= t.take(i as int));
            assert(t.take(i + 1).last() == (r.tiles@[i as int].layer, r.tiles@[i as int].samples@));
        }
        n = capped_add(n, r.tiles[i].samples.len());
        i = i + 1;
    }
    proof {
        assert(t.take(i as int) =~= t);
    }
    n
}

fn copy_tiles(t: &Vec<CoverageTile>) -> (c: Vec<CoverageTile>)
    ensures
        tiles_view(c@) == tiles_view(t@),
{
    let mut c: Vec<CoverageTile> = Vec::new();
    let mut i: usize = 0;
    while i < t.len()
        invariant
            i <= t@.len(),
            tiles_view(c@) =~= tiles_view(t@).take(i as int),
        decreases t@.len() - i,
    {
        c.push(CoverageTile { layer: t[i].layer, samples: crate::presets::copy_bytes(&t[i].samples) });
        assert(tiles_view(t@).take(i + 1) =~= tiles_view(t@).take(i as int).push(tiles_view(t@)[i as int]));
        i = i + 1;
    }
    assert(tiles_view(t@).take(i as int) =~= tiles_view(t@));
    c
}

fn replacement_in(reps: &Vec<EnvironmentCellRecord>, cell: CellCoord) -> (r: Option<usize>)
    ensures
        match r {
            Some(i) => i < reps@.len() && replacement_of(record_views(reps@), cell) == Some(rv(reps@[i as int])),
            None => replacement_of(record_views(reps@), cell) is None,
        },
{
    let ghost v = record_views(reps@);
    let mut i: usize = 0;
    assert(v.skip(0) =~= v);
    while i < reps.len()
        invariant
            i <= reps@.len(),
            v == record_views(reps@),
            replacement_of(v, cell) == replacement_of(v.skip(i as int), cell),
        decreases reps@.len() - i,
    {
        assert(v.skip(i as int).drop_first() =~= v.skip(i + 1));
        assert(v.skip(i as int)[0] == rv(reps@[i as int]));
        if reps[i].cell == cell {
            return Some(i);
        }
        i = i + 1;
    }
    None
}

impl PaintStroke {
    fn touches(&self, cell: CellCoord) -> (r: bool)
        requires
            self.wf(),
        ensures
            r == touched(self@.before, cell),
    {
        self.before_for(cell).is_some()
    }

    fn after_size(
        reps: &Vec<EnvironmentCellRecord>,
        dense: &CoverageWorkingSet,
        r: &EnvironmentCellRecord,
    ) -> (n: usize)
        requires
            dense.wf(),
        ensures
            n == capped(after_bytes(record_views(reps@), dense@.entries, rv(*r))),
            after_bytes(record_views(reps@), dense@.entries, rv(*r)) >= 0,
    {
        match replacement_in(reps, r.cell) {
            Some(i) => record_size(&reps[i]),
            None => match dense.environment_record(r.space, r.cell) {
                Some(c) => record_size(c),
                None => 0,
            },
        }
    }

    /// Paints one segment of the stroke: `results` holds the tiles the brush gave each cell
    /// of `cells`. Each cell whose tiles change is written with its new tiles, and the stroke
    /// keeps its coverage from before the stroke. Refused, with nothing changed, when a cell
    /// is not loaded, when the stroke would go over its budget, or when the coverage refuses
    /// the records (see `segment_error`).
    pub fn apply_segment(
        &mut self,
        cells: &[CellCoord],
        results: &[Vec<CoverageTile>],
        dense: &mut CoverageWorkingSet,
        definitions: &[CoverageDefinition],
    ) -> (r: Result<(), String>)
        requires
            old(self).wf(),
            old(dense).wf(),
            cells@.len() == results@.len(),
        ensures
            final(self).wf(),
            final(dense).wf(),
            match r {
                Ok(_) => {
                    let parts = segment_parts(
                        old(self)@.before,
                        old(dense)@.entries,
                        old(self)@.space,
                        cells@,
                        results_view(results@),
                    );
                    &&& segment_error(old(self)@, old(dense)@, definitions@, cells@, results_view(results@)) is None
                    &&& final(dense)@ == records_model(old(dense)@, definitions@, parts.1).0
                    &&& final(self)@ == (StrokeView { before: with_touched(old(self)@.before, parts.0), ..old(self)@ })
                },
                Err(e) => segment_error(old(self)@, old(dense)@, definitions@, cells@, results_view(results@)) == Some(e@)
                    && final(dense)@ == old(dense)@ && final(self)@ == old(self)@,
            },
    {
        let ghost rs = results_view(results@);
        let ghost entries = dense@.entries;
        let mut originals: Vec<EnvironmentCellRecord> = Vec::new();
        let mut reps: Vec<EnvironmentCellRecord> = Vec::new();
        let mut k: usize = 0;
        while k < cells.len()
            invariant
                self.wf(),
                dense.wf(),
                entries == dense@.entries,
                k <= cells@.len(),
                cells@.len() == results@.len(),
                rs == results_view(results@),
                all_loaded(entries, self@.space, cells@.take(k as int)),
                (record_views(originals@), record_views(reps@)) == segment_parts(
                    self@.before,
                    entries,
                    self@.space,
                    cells@.take(k as int),
                    rs.take(k as int),
                ),
            decreases cells@.len() - k,
        {
            let cell = cells[k];
            proof {
                assert(cells@.take(k + 1).drop_last() =~= cells@.take(k as int));
                assert(rs.take(k + 1).drop_last() =~= rs.take(k as int));
                assert(cells@.take(k + 1).last() == cell);
                assert(rs.take(k + 1).last() == tiles_view(results@[k as int]@));
            }
            let current = match dense.environment_record(self.space, cell) {
                Some(c) => c,
                None => {
                    proof {
                        assert(!has_cell(entries, (self@.space, cells@[k as int])));
                    }
                    return Err(String::from_str("Loading paint area…"));
                },
            };
            if !same_tiles(&results[k], &current.tiles) {
                let before = match self.before_for(cell) {
                    Some(b) => copy_record(b),
                    None => copy_record(current),
                };
                let mut replacement = copy_record(current);
                replacement.tiles = copy_tiles(&results[k]);
                let ghost o0 = originals@;
                let ghost r0 = reps@;
                let ghost bv = rv(before);
                let ghost nv = rv(replacement);
                originals.push(before);
                reps.push(replacement);
                proof {
                    assert(record_views(originals@) =~= record_views(o0).push(bv));
                    assert(record_views(reps@) =~= record_views(r0).push(nv));
                }
            }
            proof {
                assert forall|q: int| 0 <= q < k + 1 implies has_cell(entries, (self@.space, #[trigger] cells@.take(k + 1)[q])) by {
                    if q < k {
                        assert(cells@.take(k + 1)[q] == cells@.take(k as int)[q]);
                    }
                }
            }
            k = k + 1;
        }
        assert(cells@.take(k as int) =~= cells@);
        assert(rs.take(k as int) =~= rs);
        let ghost ov = record_views(originals@);
        let ghost repv = record_views(reps@);
        let ghost b0 = self@.before;
        // The cells this segment touches for the first time.
        let mut fresh_count: usize = 0;
        let mut fresh_bytes: usize = 0;
        let mut after_fresh: usize = 0;
        let mut i: usize = 0;
        while i < originals.len()
            invariant
                self.wf(),
                dense.wf(),
                entries == dense@.entries,
                b0 == self@.before,
                ov == record_views(originals@),
                repv == record_views(reps@),
                i <= originals@.len(),
                fresh_count == untouched(b0, ov.take(i as int)).len(),
                fresh_count <= i,
                fresh_bytes == capped(stroke_records_bytes(untouched(b0, ov.take(i as int)))),
                stroke_records_bytes(untouched(b0, ov.take(i as int))) >= 0,
                after_fresh == capped(after_total(repv, entries, untouched(b0, ov.take(i as int)))),
                after_total(repv, entries, untouched(b0, ov.take(i as int))) >= 0,
            decreases originals@.len() - i,
        {
            proof {
                assert(ov.take(i + 1).drop_last() =~= ov.take(i as int));
                assert(ov.take(i + 1).last() == rv(originals@[i as int]));
            }
            if !self.touches(originals[i].cell) {
                let one = record_size(&originals[i]);
                let after = Self::after_size(&reps, dense, &originals[i]);
                proof {
                    let u = untouched(b0, ov.take(i as int));
                    assert(untouched(b0, ov.take(i + 1)) == u.push(ov[i as int]));
                    assert(u.push(ov[i as int]).drop_last() =~= u);
                    assert(u.push(ov[i as int]).last() == ov[i as int]);
                    crate::definitions::lemma_capped_sum(
                        stroke_records_bytes(untouched(b0, ov.take(i as int))),
                        stroke_record_bytes(rv(originals@[i as int])),
                    );
                    crate::definitions::lemma_capped_sum(
                        after_total(repv, entries, untouched(b0, ov.take(i as int))),
                        after_bytes(repv, entries, rv(originals@[i as int])),
                    );
                }
                fresh_count = fresh_count + 1;
                fresh_bytes = capped_add(fresh_bytes, one);
                after_fresh = capped_add(after_fresh, after);
            }
            i = i + 1;
        }
        assert(ov.take(i as int) =~= ov);
        // The cells the stroke touched before.
        let mut before_bytes: usize = 0;
        let mut after_before: usize = 0;
        let mut j: usize = 0;
        while j < self.before.len()
            invariant
                dense.wf(),
                entries == dense@.entries,
                b0 == self@.before,
                repv == record_views(reps@),
                j <= b0.len(),
                before_bytes == capped(stroke_records_bytes(b0.take(j as int))),
                stroke_records_bytes(b0.take(j as int)) >= 0,
                after_before == capped(after_total(repv, entries, b0.take(j as int))),
                after_total(repv, entries, b0.take(j as int)) >= 0,
            decreases b0.len() - j,
        {
            proof {
                assert(b0.take(j + 1).drop_last() =~= b0.take(j as int));
                assert(b0.take(j + 1).last() == b0[j as int]);
                assert(b0[j as int] == rv(self.before@[j as int]));
            }
            let one = record_size(&self.before[j]);
            let after = Self::after_size(&reps, dense, &self.before[j]);
            proof {
                crate::definitions::lemma_capped_sum(
                    stroke_records_bytes(b0.take(j as int)),
                    stroke_record_bytes(b0[j as int]),
                );
                crate::definitions::lemma_capped_sum(
                    after_total(repv, entries, b0.take(j as int)),
                    after_bytes(repv, entries, b0[j as int]),
                );
            }
            before_bytes = capped_add(before_bytes, one);
            after_before = capped_add(after_before, after);
            j = j + 1;
        }
        assert(b0.take(j as int) =~= b0);
        proof {
            let fresh = untouched(b0, ov);
            lemma_after_total_append(repv, entries, b0, fresh);
            crate::definitions::lemma_capped_sum(stroke_records_bytes(b0), stroke_records_bytes(fresh));
            crate::definitions::lemma_capped_sum(after_total(repv, entries, b0), after_total(repv, entries, fresh));
            crate::definitions::lemma_capped_sum(
                stroke_records_bytes(b0) + stroke_records_bytes(fresh),
                after_total(repv, entries, b0) + after_total(repv, entries, fresh),
            );
        }
        let cells_total = capped_add(self.before.len(), fresh_count);
        let bytes_total = capped_add(capped_add(before_bytes, fresh_bytes), capped_add(after_before, after_fresh));
        if cells_total > MAX_STROKE_CELLS || bytes_total > MAX_STROKE_BYTES {
            return Err(String::from_str("Release the brush to finish this stroke before painting more area"));
        }
        match dense.apply_environment_records(reps.as_slice(), definitions) {
            Err(e) => {
                return Err(e);
            },
            Ok(()) => {},
        }
        // Each newly touched cell keeps its coverage from before the stroke.
        let mut n: usize = 0;
        assert(ov.take(0) =~= Seq::<RecordView>::empty());
        while n < originals.len()
            invariant
                self.wf(),
                ov == record_views(originals@),
                n <= originals@.len(),
                self@.before == with_touched(b0, ov.take(n as int)),
                self@.space == old(self)@.space,
                self@.layer == old(self)@.layer,
            decreases originals@.len() - n,
        {
            proof {
                assert(ov.take(n + 1).drop_last() =~= ov.take(n as int));
                assert(ov.take(n + 1).last() == rv(originals@[n as int]));
            }
            if !self.touches(originals[n].cell) {
                let ghost prev = self@.before;
                let copy = copy_record(&originals[n]);
                self.before.push(copy);
                proof {
                    assert(self@.before =~= prev.push(rv(originals@[n as int])));
                    assert forall|a: int, b: int| 0 <= a < b < self@.before.len() implies self@.before[a].cell
                        != self@.before[b].cell by {
                        if b == prev.len() {
                            assert(self@.before[a] == prev[a]);
                        } else {
                            assert(self@.before[a] == prev[a] && self@.before[b] == prev[b]);
                        }
                    }
                }
            }
            n = n + 1;
        }
        assert(ov.take(n as int) =~= ov);
        Ok(())
    }
}

/// The current coverage of the stroke's cells that are still held, in the stroke's order.
pub open spec fn stroke_after(entries: Seq<EntryView>, before: Seq<RecordView>) -> Seq<RecordView>
    decreases before.len(),
{
    if before.len() == 0 {
        Seq::empty()
    } else if has_cell(entries, (before.last().space, before.last().cell)) {
        stroke_after(entries, before.drop_last()).push(entry_at(entries, (before.last().space, before.last().cell)).current)
    } else {
        stroke_after(entries, before.drop_last())
    }
}

/// The records in the order of their cells: by space, then x, then z.
pub open spec fn cell_ordered(records: Seq<RecordView>) -> Seq<RecordView> {
    sort_by_rank(records.map_values(|r: RecordView| (key_rank(key_of(r)), r))).map_values(
        |p: (Rank, RecordView)| p.1,
    )
}

fn in_cell_order(records: Vec<EnvironmentCellRecord>) -> (r: Vec<EnvironmentCellRecord>)
    ensures
        record_views(r@) == cell_ordered(record_views(records@)),
{
    let ghost input = records@;
    let mut records = records;
    let mut ranked: Vec<(Rank, EnvironmentCellRecord)> = Vec::new();
    let ghost mut n: int = 0;
    while records.len() > 0
        invariant
            0 <= n <= input.len(),
            records@ == input.skip(n),
            ranked@.len() == n,
            forall|j: int| 0 <= j < n ==> #[trigger] ranked@[j] == (key_rank(key_of(rv(input[j]))), input[j]),
        decreases records@.len(),
    {
        let r = records.remove(0);
        proof {
            assert(input[n] == r);
            assert(input.skip(n + 1) =~= input.skip(n).drop_first());
        }
        let k = cell_rank(r.space, r.cell);
        ranked.push((k, r));
        proof {
            n = n + 1;
        }
    }
    let ghost items = ranked@;
    sort_ranked(&mut ranked);
    let ghost sorted = ranked@;
    let mut out: Vec<EnvironmentCellRecord> = Vec::new();
    let ghost mut m: int = 0;
    while ranked.len() > 0
        invariant
            0 <= m <= sorted.len(),
            ranked@ == sorted.skip(m),
            out@.len() == m,
            forall|j: int| 0 <= j < m ==> #[trigger] out@[j] == sorted[j].1,
        decreases ranked@.len(),
    {
        let (_, r) = ranked.remove(0);
        proof {
            assert(sorted.skip(m)[0] == sorted[m]);
            assert(sorted.skip(m + 1) =~= sorted.skip(m).drop_first());
        }
        out.push(r);
        proof {
            m = m + 1;
        }
    }
    proof {
        let f = |r: EnvironmentCellRecord| rv(r);
        lemma_sort_by_rank_map(items, f);
        assert(items.map_values(|x: (Rank, EnvironmentCellRecord)| (x.0, f(x.1))) =~= record_views(
            input,
        ).map_values(|r: RecordView| (key_rank(key_of(r)), r)));
        assert(record_views(out@) =~= sort_by_rank(items).map_values(
            |x: (Rank, EnvironmentCellRecord)| (x.0, f(x.1)),
        ).map_values(|p: (Rank, RecordView)| p.1));
    }
    out
}

impl PaintStroke {
    /// Ends the stroke; saves may go on. The stroke's cells are taken in the order of their
    /// cells. A cancelled stroke writes back each cell's coverage from before it and reports why
    /// that was refused, if it was; a finished one records the coverage before and after it in
    /// the history, unless it changed nothing.
    pub fn finish(
        self,
        cancel: bool,
        dense: &mut CoverageWorkingSet,
        definitions: &[CoverageDefinition],
        history: &mut EditorHistory<EditorCommand>,
    ) -> (status: Option<String>)
        requires
            old(dense).wf(),
            old(history).wf(),
        ensures
            final(dense).wf(),
            final(history).wf(),
            ({
                let c0 = CoverageView { gesture_active: false, ..old(dense)@ };
                let before = cell_ordered(self@.before);
                &&& cancel ==> final(dense)@ == records_model(c0, definitions@, before).0 && final(history)@
                    == old(history)@ && match status {
                    Some(m) => records_error(c0, definitions@, before) == Some(m@),
                    None => records_error(c0, definitions@, before) is None,
                }
                &&& !cancel ==> {
                    let after = stroke_after(c0.entries, before);
                    &&& status is None
                    &&& final(dense)@ == c0
                    &&& before == after ==> final(history)@ == old(history)@
                    &&& before != after ==> exists|b: Vec<EnvironmentCellRecord>, a: Vec<EnvironmentCellRecord>|
                        record_views(b@) == before && record_views(a@) == after && #[trigger] final(history)@
                            == record_model(
                            old(history)@,
                            EditorCommand::Environment { before: b, after: a },
                            editor_command_bytes(EditorCommand::Environment { before: b, after: a }) as nat,
                        )
                }
            }),
    {
        dense.set_gesture_active(false);
        let PaintStroke { space: _, layer: _, before: touched } = self;
        let before = in_cell_order(touched);
        if cancel {
            return match dense.apply_environment_records(before.as_slice(), definitions) {
                Err(e) => Some(e),
                Ok(()) => None,
            };
        }
        let ghost bv = record_views(before@);
        let mut after: Vec<EnvironmentCellRecord> = Vec::new();
        let mut i: usize = 0;
        while i < before.len()
            invariant
                dense.wf(),
                i <= before@.len(),
                bv == record_views(before@),
                record_views(after@) == stroke_after(dense@.entries, bv.take(i as int)),
            decreases before@.len() - i,
        {
            proof {
                assert(bv.take(i + 1).drop_last() =~= bv.take(i as int));
                assert(bv.take(i + 1).last() == rv(before@[i as int]));
            }
            match dense.environment_record(before[i].space, before[i].cell) {
                Some(c) => {
                    let ghost a0 = after@;
                    let copy = copy_record(c);
                    after.push(copy);
                    assert(record_views(after@) =~= record_views(a0).push(rv(*c)));
                },
                None => {},
            }
            i = i + 1;
        }
        assert(bv.take(i as int) =~= bv);
        history.record_environment_stroke(before, after);
        None
    }
}

proof fn lemma_after_total_append(reps: Seq<RecordView>, entries: Seq<EntryView>, a: Seq<RecordView>, b: Seq<RecordView>)
    ensures
        after_total(reps, entries, a + b) == after_total(reps, entries, a) + after_total(reps, entries, b),
    decreases b.len(),
{
    if b.len() == 0 {
        assert(a + b =~= a);
    } else {
        lemma_after_total_append(reps, entries, a, b.drop_last());
        assert((a + b).drop_last() =~= a + b.drop_last());
        assert((a + b).last() == b.last());
    }
}

proof fn lemma_with_touched_keeps(before: Seq<RecordView>, originals: Seq<RecordView>, cell: CellCoord)
    ensures
        touched(before, cell) ==> touched(with_touched(before, originals), cell),
    decreases originals.len(),
{
    if originals.len() > 0 {
        lemma_with_touched_keeps(before, originals.drop_last(), cell);
        let prev = with_touched(before, originals.drop_last());
        if touched(prev, cell) && !touched(prev, originals.last().cell) {
            let i = choose|i: int| 0 <= i < prev.len() && prev[i].cell == cell;
            assert(prev.push(originals.last())[i] == prev[i]);
        }
    }
}

proof fn lemma_with_touched_len(before: Seq<RecordView>, originals: Seq<RecordView>)
    ensures
        with_touched(before, originals).len() <= before.len() + untouched(before, originals).len(),
    decreases originals.len(),
{
    if originals.len() > 0 {
        lemma_with_touched_len(before, originals.drop_last());
        let prev = with_touched(before, originals.drop_last());
        lemma_with_touched_keeps(before, originals.drop_last(), originals.last().cell);
    }
}

/// An accepted segment never takes a stroke past the cells one stroke may touch: however long
/// the drag, the stroke fits one entry of history.
pub proof fn law_stroke_stays_within_budget(
    s: StrokeView,
    c: CoverageView,
    defs: Seq<CoverageDefinition>,
    cells: Seq<CellCoord>,
    results: Seq<Seq<TileView>>,
)
    requires
        segment_error(s, c, defs, cells, results) is None,
    ensures
        with_touched(s.before, segment_parts(s.before, c.entries, s.space, cells, results).0).len()
            <= MAX_STROKE_CELLS,
{
    let parts = segment_parts(s.before, c.entries, s.space, cells, results);
    lemma_with_touched_len(s.before, parts.0);
}

} // verus!
