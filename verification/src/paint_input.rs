//! The decisions of environment paint input, frame by frame: when a stroke is cancelled or
//! ended, whether painting may go on, and whether the brushed area is loaded far enough to
//! paint.

use vstd::prelude::*;

use crate::coverage::{entry_at, has_cell, CoverageWorkingSet};
use crate::world::{CellCoord, WorldSpaceId};

verus! {

/// What a frame of paint input does before it looks at the cursor.
#[derive(Clone, Copy, Debug, PartialEq, Eq)]
pub struct PaintFrame {
    /// Cancel the stroke under way (Escape), writing back its coverage.
    pub cancel: bool,
    /// End the stroke under way, keeping what it painted.
    pub finish: bool,
    /// Go on to the cursor: painting is enabled and nothing blocks it.
    pub proceed: bool,
}

/// Decides a frame of paint input from whether the paint tool is active (`enabled`), whether
/// something blocks painting (an unapplied form, captured pointer, another button or a
/// modifier held, a save or publication under way, a conflict), whether Escape was pressed,
/// whether the left button is held, and whether a stroke is under way. Escape cancels a stroke;
/// otherwise a stroke ends when painting stops being possible or the button is released.
pub fn paint_frame(enabled: bool, blocked: bool, escape: bool, left_held: bool, stroking: bool) -> (f: PaintFrame)
    ensures
        f.cancel == (escape && stroking),
        f.finish == (stroking && !(escape && stroking) && (!enabled || blocked || !left_held)),
        f.proceed == (enabled && !blocked),
{
    let cancel = escape && stroking;
    let finish = stroking && !cancel && (!enabled || blocked || !left_held);
    PaintFrame { cancel, finish, proceed: enabled && !blocked }
}

/// The cell is loaded in the space with coverage of the definition revision.
pub open spec fn cell_loaded_at(
    entries: Seq<crate::coverage::EntryView>,
    space: WorldSpaceId,
    revision: u64,
    c: CellCoord,
) -> bool {
    has_cell(entries, (space, c)) && entry_at(entries, (space, c)).current.definition_revision == revision
}

/// Every brushed cell is loaded with coverage of the definition revision.
pub open spec fn cells_loaded_at(
    entries: Seq<crate::coverage::EntryView>,
    space: WorldSpaceId,
    revision: u64,
    cells: Seq<CellCoord>,
) -> bool {
    forall|k: int| 0 <= k < cells.len() ==> cell_loaded_at(entries, space, revision, #[trigger] cells[k])
}

/// Every cell of `cells` is among `loaded`.
pub open spec fn all_among(cells: Seq<CellCoord>, loaded: Seq<CellCoord>) -> bool {
    forall|k: int| 0 <= k < cells.len() ==> loaded.contains(#[trigger] cells[k])
}

/// Whether the brushed cells may be painted, or what the status says instead: the project's
/// coverage snapshot must be of the space and definition revision, each brushed cell loaded
/// with coverage of that revision, the cells the brush depends on (`halo`; none when the brush
/// covers too much) within the snapshot's loaded cells.
pub open spec fn area_ready(
    entries: Seq<crate::coverage::EntryView>,
    space: WorldSpaceId,
    revision: u64,
    snapshot: Option<(WorldSpaceId, u64)>,
    cells: Seq<CellCoord>,
    halo: Option<Seq<CellCoord>>,
    loaded: Seq<CellCoord>,
) -> Result<(), Seq<char>> {
    if !(snapshot == Some((space, revision))) {
        Err("Loading paint area…"@)
    } else if !cells_loaded_at(entries, space, revision, cells) {
        Err("Loading paint area… Move closer or use a smaller brush."@)
    } else {
        match halo {
            None => Err("Brush covers too much area"@),
            Some(h) => if all_among(h, loaded) {
                Ok(())
            } else {
                Err("Loading neighboring paint cells…"@)
            },
        }
    }
}

pub(crate) fn contains_cell(cells: &[CellCoord], c: CellCoord) -> (r: bool)
    ensures
        r == cells@.contains(c),
{
    let mut i: usize = 0;
    while i < cells.len()
        invariant
            i <= cells@.len(),
            forall|k: int| 0 <= k < i ==> cells@[k] != c,
        decreases cells@.len() - i,
    {
        if cells[i] == c {
            assert(cells@[i as int] == c);
            return true;
        }
        i = i + 1;
    }
    false
}

/// Whether the brushed cells may be painted (see `area_ready`). `snapshot` is the space and
/// definition revision of the project's coverage snapshot, `halo` the cells the brush depends
/// on, and `loaded` the cells of the snapshot.
pub fn paint_area_ready(
    dense: &CoverageWorkingSet,
    space: WorldSpaceId,
    revision: u64,
    snapshot: Option<(WorldSpaceId, u64)>,
    cells: &[CellCoord],
    halo: Option<&[CellCoord]>,
    loaded: &[CellCoord],
) -> (r: Result<(), String>)
    requires
        dense.wf(),
    ensures
        match (r, area_ready(
            dense@.entries,
            space,
            revision,
            snapshot,
            cells@,
            match halo {
                Some(h) => Some(h@),
                None => None,
            },
            loaded@,
        )) {
            (Ok(()), Ok(())) => true,
            (Err(m), Err(e)) => m@ == e,
            _ => false,
        },
{
    let current = match snapshot {
        Some((s, v)) => s == space && v == revision,
        None => false,
    };
    if !current {
        return Err(String::from_str("Loading paint area…"));
    }
    let mut i: usize = 0;
    while i < cells.len()
        invariant
            dense.wf(),
            snapshot == Some((space, revision)),
            i <= cells@.len(),
            forall|k: int| 0 <= k < i ==> cell_loaded_at(dense@.entries, space, revision, #[trigger] cells@[k]),
        decreases cells@.len() - i,
    {
        let ready = match dense.environment_record(space, cells[i]) {
            Some(r) => r.definition_revision == revision,
            None => false,
        };
        if !ready {
            assert(!cell_loaded_at(dense@.entries, space, revision, cells@[i as int]));
            return Err(String::from_str("Loading paint area… Move closer or use a smaller brush."));
        }
        i = i + 1;
    }
    let h = match halo {
        Some(h) => h,
        None => {
            return Err(String::from_str("Brush covers too much area"));
        },
    };
    let mut j: usize = 0;
    while j < h.len()
        invariant
            j <= h@.len(),
            snapshot == Some((space, revision)),
            halo == Some(h),
            forall|k: int| 0 <= k < cells@.len() ==> cell_loaded_at(dense@.entries, space, revision, #[trigger] cells@[k]),
            forall|k: int| 0 <= k < j ==> loaded@.contains(#[trigger] h@[k]),
        decreases h@.len() - j,
    {
        if !contains_cell(loaded, h[j]) {
            assert(!loaded@.contains(h@[j as int]));
            return Err(String::from_str("Loading neighboring paint cells…"));
        }
        j = j + 1;
    }
    Ok(())
}

} // verus!
