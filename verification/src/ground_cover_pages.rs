//! Which source-derived ground-cover pages the editor presents in place of cooked ones, and how
//! a presented page follows a newer artifact or a moved world origin.

use vstd::prelude::*;

use crate::world::{CellCoord, WorldSpaceId};

verus! {

/// Pages are presented within this many cells of the viewer (Chebyshev distance).
pub const OVERRIDE_PRESENTATION_RADIUS_CELLS: u32 = 3;

/// At most this many pages are presented.
pub const MAX_PRESENTED_GROUND_COVER_OVERRIDES: usize = 49;

/// A source-derived page as the editor presents it.
#[derive(Clone, Copy, Debug, PartialEq, Eq, Structural)]
pub struct PresentedPage {
    pub space: WorldSpaceId,
    pub cell: CellCoord,
    pub input_revision: u64,
    pub fingerprint: u64,
    pub origin_cell: CellCoord,
}

/// What a presented page needs when the desired page is known.
#[derive(Clone, Copy, Debug, PartialEq, Eq, Structural)]
pub enum OverrideUpdate {
    /// Nothing changed.
    Keep,
    /// Only the world origin moved: the page is placed anew.
    Rebase,
    /// The artifact changed: the page is built anew.
    Replace,
}

/// A derived ground-cover page the artifact store holds for a cell.
#[derive(Clone, Copy, Debug, PartialEq, Eq, Structural)]
pub struct GroundCoverCandidate {
    pub space: WorldSpaceId,
    pub cell: CellCoord,
    pub input_revision: u64,
    pub fingerprint: u64,
    /// Whether the cell's local coverage differs from the runtime.
    pub mask_diverged: bool,
}

/// A source preview replaces the cooked page when the mask, the regions or the catalog
/// differs from the runtime.
pub fn ground_cover_override_required(
    mask_diverged: bool,
    regions_diverged: bool,
    catalog_diverged: bool,
) -> (r: bool)
    ensures
        r == (mask_diverged || regions_diverged || catalog_diverged),
{
    mask_diverged || regions_diverged || catalog_diverged
}

/// A newer artifact replaces the page; a moved origin only rebases it.
pub fn override_update(
    current: &PresentedPage,
    input_revision: u64,
    fingerprint: u64,
    origin_cell: CellCoord,
) -> (u: OverrideUpdate)
    ensures
        (current.input_revision != input_revision || current.fingerprint != fingerprint) ==> u
            == OverrideUpdate::Replace,
        (current.input_revision == input_revision && current.fingerprint == fingerprint
            && current.origin_cell != origin_cell) ==> u == OverrideUpdate::Rebase,
        (current.input_revision == input_revision && current.fingerprint == fingerprint
            && current.origin_cell == origin_cell) ==> u == OverrideUpdate::Keep,
{
    if current.input_revision != input_revision || current.fingerprint != fingerprint {
        OverrideUpdate::Replace
    } else if !(current.origin_cell == origin_cell) {
        OverrideUpdate::Rebase
    } else {
        OverrideUpdate::Keep
    }
}

/// A page needs a render asset only when it holds clusters; an empty page still overrides the
/// cooked one.
pub fn needs_override_asset(cluster_count: usize) -> (r: bool)
    ensures
        r == (cluster_count > 0),
{
    cluster_count > 0
}

/// The Chebyshev distance of two cells.
pub open spec fn chebyshev(a: CellCoord, b: CellCoord) -> int {
    let dx = if a.x >= b.x {
        a.x - b.x
    } else {
        b.x - a.x
    };
    let dz = if a.z >= b.z {
        a.z - b.z
    } else {
        b.z - a.z
    };
    if dx >= dz {
        dx
    } else {
        dz
    }
}

/// Whether a candidate is presented to a viewer in a space and cell.
pub open spec fn presented(
    c: GroundCoverCandidate,
    space: WorldSpaceId,
    cell: CellCoord,
    regions_diverged: bool,
    catalog_diverged: bool,
) -> bool {
    c.space == space && chebyshev(c.cell, cell) <= OVERRIDE_PRESENTATION_RADIUS_CELLS
        && (c.mask_diverged || regions_diverged || catalog_diverged)
}

/// The presented candidates, in order, before the count bound.
pub open spec fn presented_all(
    cs: Seq<GroundCoverCandidate>,
    space: WorldSpaceId,
    cell: CellCoord,
    regions_diverged: bool,
    catalog_diverged: bool,
) -> Seq<GroundCoverCandidate>
    decreases cs.len(),
{
    if cs.len() == 0 {
        Seq::empty()
    } else if presented(cs.last(), space, cell, regions_diverged, catalog_diverged) {
        presented_all(cs.drop_last(), space, cell, regions_diverged, catalog_diverged).push(cs.last())
    } else {
        presented_all(cs.drop_last(), space, cell, regions_diverged, catalog_diverged)
    }
}

fn chebyshev_within(a: CellCoord, b: CellCoord, radius: u32) -> (r: bool)
    ensures
        r == (chebyshev(a, b) <= radius),
{
    let dx = if a.x >= b.x {
        (a.x as i64) - (b.x as i64)
    } else {
        (b.x as i64) - (a.x as i64)
    };
    let dz = if a.z >= b.z {
        (a.z as i64) - (b.z as i64)
    } else {
        (b.z as i64) - (a.z as i64)
    };
    dx <= radius as i64 && dz <= radius as i64
}

/// The pages presented to a viewer: candidates of the viewer's space within the presentation
/// radius that need a source preview, in order, at most the bound. Nothing is presented
/// without a viewer position or when the viewer is in another space than the world origin.
pub fn presented_pages(
    candidates: &[GroundCoverCandidate],
    viewer: Option<(WorldSpaceId, CellCoord)>,
    origin_space: Option<WorldSpaceId>,
    regions_diverged: bool,
    catalog_diverged: bool,
) -> (r: Vec<GroundCoverCandidate>)
    ensures
        match viewer {
            Some((space, cell)) => if origin_space == Some(space) {
                r@ == presented_all(candidates@, space, cell, regions_diverged, catalog_diverged).take(
                    if presented_all(candidates@, space, cell, regions_diverged, catalog_diverged).len()
                        <= MAX_PRESENTED_GROUND_COVER_OVERRIDES {
                        presented_all(candidates@, space, cell, regions_diverged, catalog_diverged).len() as int
                    } else {
                        MAX_PRESENTED_GROUND_COVER_OVERRIDES as int
                    },
                )
            } else {
                r@.len() == 0
            },
            None => r@.len() == 0,
        },
{
    let (space, cell) = match viewer {
        Some(v) => v,
        None => {
            return Vec::new();
        },
    };
    if origin_space != Some(space) {
        return Vec::new();
    }
    let ghost all = presented_all(candidates@, space, cell, regions_diverged, catalog_diverged);
    let mut r: Vec<GroundCoverCandidate> = Vec::new();
    let mut i: usize = 0;
    while i < candidates.len() && r.len() < MAX_PRESENTED_GROUND_COVER_OVERRIDES
        invariant
            i <= candidates@.len(),
            r@ == presented_all(candidates@.take(i as int), space, cell, regions_diverged, catalog_diverged),
            r@.len() <= MAX_PRESENTED_GROUND_COVER_OVERRIDES,
        decreases candidates@.len() - i,
    {
        proof {
            assert(candidates@.take(i + 1).drop_last() =~= candidates@.take(i as int));
        }
        let c = candidates[i];
        if c.space == space && chebyshev_within(c.cell, cell, OVERRIDE_PRESENTATION_RADIUS_CELLS)
            && ground_cover_override_required(c.mask_diverged, regions_diverged, catalog_diverged) {
            r.push(c);
        }
        i = i + 1;
    }
    proof {
        lemma_presented_prefix(candidates@, i as int, space, cell, regions_diverged, catalog_diverged);
        if r@.len() < MAX_PRESENTED_GROUND_COVER_OVERRIDES {
            assert(candidates@.take(i as int) =~= candidates@);
            assert(all.take(all.len() as int) =~= all);
        } else {
            assert(all.take(MAX_PRESENTED_GROUND_COVER_OVERRIDES as int) =~= r@);
        }
    }
    r
}

proof fn lemma_presented_prefix(
    cs: Seq<GroundCoverCandidate>,
    i: int,
    space: WorldSpaceId,
    cell: CellCoord,
    regions_diverged: bool,
    catalog_diverged: bool,
)
    requires
        0 <= i <= cs.len(),
    ensures
        presented_all(cs.take(i), space, cell, regions_diverged, catalog_diverged).is_prefix_of(
            presented_all(cs, space, cell, regions_diverged, catalog_diverged),
        ),
    decreases cs.len() - i,
{
    if i < cs.len() {
        lemma_presented_prefix(cs, i + 1, space, cell, regions_diverged, catalog_diverged);
        assert(cs.take(i + 1).drop_last() =~= cs.take(i));
        let a = presented_all(cs.take(i), space, cell, regions_diverged, catalog_diverged);
        let b = presented_all(cs.take(i + 1), space, cell, regions_diverged, catalog_diverged);
        let full = presented_all(cs, space, cell, regions_diverged, catalog_diverged);
        assert(a.is_prefix_of(b));
        assert(b.is_prefix_of(full));
        assert forall|k: int| 0 <= k < a.len() implies a[k] == full[k] by {
            assert(a[k] == b[k]);
        }
    } else {
        assert(cs.take(i) =~= cs);
    }
}

} // verus!
