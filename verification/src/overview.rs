//! Bounded coarse-product demand used when the world camera leaves local editing scale: a
//! fixed square of tiles around the viewpoint, one derived overview job per tile, and the
//! state of each product as the derived artifacts arrive.

use vstd::prelude::*;
use crate::artifacts::DerivedArtifactStore;
use crate::jobs::{DerivedJobKey, DerivedJobScope, DerivedProduct, EditorToolId};
use crate::project_store::clamp_i32;
use crate::scheduler::DerivedJobScheduler;
use crate::world::{CellCoord, WorldSpaceId};

verus! {

/// Cells along one side of an overview tile.
pub const OVERVIEW_TILE_CELLS: i32 = 16;

/// Tiles demanded on each side of the tile under the viewpoint.
pub const OVERVIEW_RADIUS_TILES: i32 = 2;

/// Tiles demanded at once.
pub const MAX_OVERVIEW_TILES: usize = 25;

/// Products demanded at once: every kind of every tile.
pub const MAX_OVERVIEW_PRODUCTS: usize = 100;

/// Object icons drawn per tile.
pub const MAX_DRAWN_OBJECT_ICONS_PER_TILE: usize = 256;

/// The identity of the editor tool that owns the overview's derived requests.
pub const OVERVIEW_DERIVED_OWNER: u32 = 1;

/// Whether the editor shows local detail or the coarse overview.
#[derive(Clone, Copy, Debug, PartialEq, Eq, Structural)]
pub enum OverviewMode {
    Detail,
    Overview,
}

/// The kinds of coarse product each tile has.
#[derive(Clone, Copy, Debug, PartialEq, Eq, Hash, Structural)]
pub enum OverviewProductKind {
    CoarseTerrain,
    DensityMap,
    ObjectIcons,
    CellStatus,
}

/// Every product kind, in display order.
pub open spec fn all_kinds() -> Seq<OverviewProductKind> {
    seq![
        OverviewProductKind::CoarseTerrain,
        OverviewProductKind::DensityMap,
        OverviewProductKind::ObjectIcons,
        OverviewProductKind::CellStatus,
    ]
}

/// The short label of a product kind.
pub open spec fn kind_label(kind: OverviewProductKind) -> Seq<char> {
    match kind {
        OverviewProductKind::CoarseTerrain => "terrain"@,
        OverviewProductKind::DensityMap => "density"@,
        OverviewProductKind::ObjectIcons => "icons"@,
        OverviewProductKind::CellStatus => "status"@,
    }
}

impl OverviewProductKind {
    /// Every product kind, in display order.
    pub fn all() -> (r: [OverviewProductKind; 4])
        ensures
            r@ == all_kinds(),
    {
        let r = [
            OverviewProductKind::CoarseTerrain,
            OverviewProductKind::DensityMap,
            OverviewProductKind::ObjectIcons,
            OverviewProductKind::CellStatus,
        ];
        assert(r@ =~= all_kinds());
        r
    }

    /// The short label of the kind.
    pub fn label(self) -> (r: &'static str)
        ensures
            r@ == kind_label(self),
    {
        proof {
            reveal_strlit("terrain");
            reveal_strlit("density");
            reveal_strlit("icons");
            reveal_strlit("status");
        }
        match self {
            OverviewProductKind::CoarseTerrain => "terrain",
            OverviewProductKind::DensityMap => "density",
            OverviewProductKind::ObjectIcons => "icons",
            OverviewProductKind::CellStatus => "status",
        }
    }
}

/// One square tile of cells of a world space, by tile coordinate.
#[derive(Clone, Copy, Debug, PartialEq, Eq, Hash, Structural)]
pub struct OverviewTileKey {
    pub space: WorldSpaceId,
    pub x: i32,
    pub z: i32,
}

/// The tile that holds a cell; cells left of or below the origin belong to negative tiles.
pub open spec fn tile_containing(space: WorldSpaceId, cell: CellCoord) -> OverviewTileKey {
    OverviewTileKey {
        space,
        x: (cell.x as int / OVERVIEW_TILE_CELLS as int) as i32,
        z: (cell.z as int / OVERVIEW_TILE_CELLS as int) as i32,
    }
}

/// The first cell of a tile, saturating at the coordinate edges.
pub open spec fn tile_minimum(tile: OverviewTileKey) -> CellCoord {
    CellCoord {
        x: clamp_i32(tile.x * OVERVIEW_TILE_CELLS),
        z: clamp_i32(tile.z * OVERVIEW_TILE_CELLS),
    }
}

/// The last cell of a tile, saturating at the coordinate edges.
pub open spec fn tile_maximum(tile: OverviewTileKey) -> CellCoord {
    CellCoord {
        x: clamp_i32(tile_minimum(tile).x + (OVERVIEW_TILE_CELLS - 1)),
        z: clamp_i32(tile_minimum(tile).z + (OVERVIEW_TILE_CELLS - 1)),
    }
}

fn saturating_add_i32(a: i32, b: i32) -> (r: i32)
    ensures
        r == clamp_i32(a + b),
{
    match a.checked_add(b) {
        Some(v) => v,
        None => if b > 0 {
            i32::MAX
        } else {
            i32::MIN
        },
    }
}

fn saturating_mul_tile(a: i32) -> (r: i32)
    ensures
        r == clamp_i32(a * OVERVIEW_TILE_CELLS),
{
    match a.checked_mul(OVERVIEW_TILE_CELLS) {
        Some(v) => v,
        None => if a > 0 {
            i32::MAX
        } else {
            i32::MIN
        },
    }
}

fn tile_coordinate(v: i32) -> (r: i32)
    ensures
        r == v as int / OVERVIEW_TILE_CELLS as int,
{
    match v.checked_div_euclid(OVERVIEW_TILE_CELLS) {
        Some(q) => q,
        None => 0,
    }
}

impl OverviewTileKey {
    /// The tile that holds a cell.
    pub fn containing(space: WorldSpaceId, cell: CellCoord) -> (t: Self)
        ensures
            t == tile_containing(space, cell),
    {
        OverviewTileKey { space, x: tile_coordinate(cell.x), z: tile_coordinate(cell.z) }
    }

    /// The first cell of the tile.
    pub fn minimum_cell(self) -> (c: CellCoord)
        ensures
            c == tile_minimum(self),
    {
        CellCoord { x: saturating_mul_tile(self.x), z: saturating_mul_tile(self.z) }
    }

    /// The last cell of the tile.
    pub fn maximum_cell(self) -> (c: CellCoord)
        ensures
            c == tile_maximum(self),
    {
        let minimum = self.minimum_cell();
        CellCoord {
            x: saturating_add_i32(minimum.x, OVERVIEW_TILE_CELLS - 1),
            z: saturating_add_i32(minimum.z, OVERVIEW_TILE_CELLS - 1),
        }
    }

    /// The cell at the middle of the tile, where a camera focusing on it goes.
    pub fn focus_cell(self) -> (c: CellCoord)
        ensures
            c == (CellCoord {
                x: clamp_i32(tile_minimum(self).x + OVERVIEW_TILE_CELLS / 2),
                z: clamp_i32(tile_minimum(self).z + OVERVIEW_TILE_CELLS / 2),
            }),
    {
        let minimum = self.minimum_cell();
        CellCoord {
            x: saturating_add_i32(minimum.x, OVERVIEW_TILE_CELLS / 2),
            z: saturating_add_i32(minimum.z, OVERVIEW_TILE_CELLS / 2),
        }
    }
}

/// Where a product of a tile stands.
#[derive(Clone, Copy, Debug, PartialEq, Eq, Structural)]
pub enum OverviewProductState {
    Missing,
    Requested,
    Ready,
    Failed,
}

/// One product of one demanded tile.
#[derive(Clone, Copy, Debug, PartialEq, Eq, Structural)]
pub struct OverviewProductDemand {
    pub tile: OverviewTileKey,
    pub kind: OverviewProductKind,
    pub state: OverviewProductState,
}

/// The next mode for a camera at a distance: the overview starts once the camera reaches the
/// entry distance and ends once it comes back to the exit distance, which is nearer, so that a
/// camera between the two keeps its mode.
pub open spec fn next_mode(current: OverviewMode, at_enter_distance: bool, at_exit_distance: bool) -> OverviewMode {
    match current {
        OverviewMode::Detail => if at_enter_distance {
            OverviewMode::Overview
        } else {
            OverviewMode::Detail
        },
        OverviewMode::Overview => if at_exit_distance {
            OverviewMode::Detail
        } else {
            OverviewMode::Overview
        },
    }
}

/// Decides the mode for a camera: `at_enter_distance` is whether the camera is at least the
/// entry distance away, `at_exit_distance` whether it is at most the exit distance away.
pub fn overview_mode(current: OverviewMode, at_enter_distance: bool, at_exit_distance: bool) -> (m: OverviewMode)
    ensures
        m == next_mode(current, at_enter_distance, at_exit_distance),
{
    match current {
        OverviewMode::Detail => if at_enter_distance {
            OverviewMode::Overview
        } else {
            OverviewMode::Detail
        },
        OverviewMode::Overview => if at_exit_distance {
            OverviewMode::Detail
        } else {
            OverviewMode::Overview
        },
    }
}

/// The demanded tiles around a cell: the square of tiles within the radius of the tile that
/// holds it, row by row, each coordinate saturating at the edges.
pub open spec fn demanded(space: WorldSpaceId, cell: CellCoord) -> Seq<OverviewTileKey> {
    let center = tile_containing(space, cell);
    Seq::new(
        MAX_OVERVIEW_TILES as nat,
        |i: int|
            OverviewTileKey {
                space,
                x: clamp_i32(center.x + (i % 5 - OVERVIEW_RADIUS_TILES)),
                z: clamp_i32(center.z + (i / 5 - OVERVIEW_RADIUS_TILES)),
            },
    )
}

/// The tiles demanded around a cell.
pub fn demanded_tiles(space: WorldSpaceId, cell: CellCoord) -> (tiles: Vec<OverviewTileKey>)
    ensures
        tiles@ == demanded(space, cell),
{
    let center = OverviewTileKey::containing(space, cell);
    let mut tiles: Vec<OverviewTileKey> = Vec::new();
    let mut z: i32 = -OVERVIEW_RADIUS_TILES;
    while z <= OVERVIEW_RADIUS_TILES
        invariant
            -OVERVIEW_RADIUS_TILES <= z <= OVERVIEW_RADIUS_TILES + 1,
            tiles@.len() == (z + OVERVIEW_RADIUS_TILES) * 5,
            forall|i: int| 0 <= i < tiles@.len() ==> #[trigger] tiles@[i] == demanded(space, cell)[i],
            center == tile_containing(space, cell),
        decreases OVERVIEW_RADIUS_TILES + 1 - z,
    {
        let mut x: i32 = -OVERVIEW_RADIUS_TILES;
        while x <= OVERVIEW_RADIUS_TILES
            invariant
                -OVERVIEW_RADIUS_TILES <= z <= OVERVIEW_RADIUS_TILES,
                -OVERVIEW_RADIUS_TILES <= x <= OVERVIEW_RADIUS_TILES + 1,
                tiles@.len() == (z + OVERVIEW_RADIUS_TILES) * 5 + (x + OVERVIEW_RADIUS_TILES),
                forall|i: int| 0 <= i < tiles@.len() ==> #[trigger] tiles@[i] == demanded(space, cell)[i],
                center == tile_containing(space, cell),
            decreases OVERVIEW_RADIUS_TILES + 1 - x,
        {
            let ghost i = tiles@.len() as int;
            tiles.push(
                OverviewTileKey {
                    space,
                    x: saturating_add_i32(center.x, x),
                    z: saturating_add_i32(center.z, z),
                },
            );
            proof {
                assert(i % 5 == x + OVERVIEW_RADIUS_TILES);
                assert(i / 5 == z + OVERVIEW_RADIUS_TILES);
            }
            x = x + 1;
        }
        z = z + 1;
    }
    proof {
        assert(tiles@ =~= demanded(space, cell));
    }
    tiles
}

/// The derived overview job of a tile: its region is the tile's cells.
pub open spec fn tile_job_key(tile: OverviewTileKey) -> DerivedJobKey {
    DerivedJobKey {
        product: DerivedProduct::Overview,
        scope: DerivedJobScope::Region { space: tile.space, minimum: tile_minimum(tile), maximum: tile_maximum(tile) },
    }
}

/// The mode changes only at the thresholds: a camera between the exit and the entry distance
/// keeps the mode it has, the overview starts only at the entry distance and ends only at the
/// exit distance.
pub proof fn law_mode_hysteresis(current: OverviewMode, at_enter_distance: bool, at_exit_distance: bool)
    ensures
        !at_enter_distance && !at_exit_distance ==> next_mode(current, at_enter_distance, at_exit_distance) == current,
        current == OverviewMode::Detail && next_mode(current, at_enter_distance, at_exit_distance)
            == OverviewMode::Overview ==> at_enter_distance,
        current == OverviewMode::Overview && next_mode(current, at_enter_distance, at_exit_distance)
            == OverviewMode::Detail ==> at_exit_distance,
{
}

/// The demand is bounded, and its middle tile is the tile that holds the viewpoint's cell.
pub proof fn law_demand_is_bounded_around_viewpoint(space: WorldSpaceId, cell: CellCoord)
    ensures
        demanded(space, cell).len() == MAX_OVERVIEW_TILES,
        demanded(space, cell)[12] == tile_containing(space, cell),
        forall|i: int| 0 <= i < MAX_OVERVIEW_TILES ==> (#[trigger] demanded(space, cell)[i]).space == space,
{
    let center = tile_containing(space, cell);
    assert(12int % 5 == 2 && 12int / 5 == 2);
    assert(clamp_i32(center.x + 0) == center.x);
    assert(clamp_i32(center.z + 0) == center.z);
}

proof fn lemma_tile_coordinates_small(space: WorldSpaceId, cell: CellCoord)
    ensures
        -0x1000_0000 <= tile_containing(space, cell).x <= 0x1000_0000,
        -0x1000_0000 <= tile_containing(space, cell).z <= 0x1000_0000,
{
    let x = cell.x as int;
    let z = cell.z as int;
    assert(-0x1000_0000 <= x / 16 <= 0x1000_0000) by (nonlinear_arith)
        requires
            -0x8000_0000 <= x < 0x8000_0000,
    ;
    assert(-0x1000_0000 <= z / 16 <= 0x1000_0000) by (nonlinear_arith)
        requires
            -0x8000_0000 <= z < 0x8000_0000,
    ;
}

/// The tile `dx` tiles along x and `dz` along z from the tile that holds the cell.
pub open spec fn tile_at_offset(space: WorldSpaceId, cell: CellCoord, dx: int, dz: int) -> OverviewTileKey {
    OverviewTileKey {
        space,
        x: (tile_containing(space, cell).x + dx) as i32,
        z: (tile_containing(space, cell).z + dz) as i32,
    }
}

/// The tile is of the space and within `OVERVIEW_RADIUS_TILES` of the tile that holds the cell,
/// along x and along z.
pub open spec fn in_square(space: WorldSpaceId, cell: CellCoord, t: OverviewTileKey) -> bool {
    &&& t.space == space
    &&& -OVERVIEW_RADIUS_TILES <= t.x - tile_containing(space, cell).x <= OVERVIEW_RADIUS_TILES
    &&& -OVERVIEW_RADIUS_TILES <= t.z - tile_containing(space, cell).z <= OVERVIEW_RADIUS_TILES
}

/// Exactly the square of tiles within `OVERVIEW_RADIUS_TILES` of the tile that holds the
/// viewpoint's cell is demanded: every pair of offsets in x and z appears, no demanded tile lies
/// outside the square or in another space, and no tile is demanded twice.
pub proof fn law_demand_is_the_square_around_viewpoint(space: WorldSpaceId, cell: CellCoord)
    ensures
        forall|dx: int, dz: int|
            -OVERVIEW_RADIUS_TILES <= dx <= OVERVIEW_RADIUS_TILES && -OVERVIEW_RADIUS_TILES <= dz
                <= OVERVIEW_RADIUS_TILES ==> demanded(space, cell).contains(#[trigger] tile_at_offset(space, cell, dx, dz)),
        forall|i: int| 0 <= i < demanded(space, cell).len() ==> in_square(space, cell, #[trigger] demanded(space, cell)[i]),
        forall|i: int, j: int|
            0 <= i < j < demanded(space, cell).len() ==> demanded(space, cell)[i] != demanded(space, cell)[j],
{
    let center = tile_containing(space, cell);
    let d = demanded(space, cell);
    lemma_tile_coordinates_small(space, cell);
    assert forall|dx: int, dz: int|
        -OVERVIEW_RADIUS_TILES <= dx <= OVERVIEW_RADIUS_TILES && -OVERVIEW_RADIUS_TILES <= dz
            <= OVERVIEW_RADIUS_TILES implies d.contains(#[trigger] tile_at_offset(space, cell, dx, dz)) by {
        let i = (dz + 2) * 5 + (dx + 2);
        assert(i % 5 == dx + 2 && i / 5 == dz + 2);
        assert(d[i] == tile_at_offset(space, cell, dx, dz));
    }
    assert forall|i: int| 0 <= i < d.len() implies in_square(space, cell, #[trigger] d[i]) by {
        assert(0 <= i % 5 < 5 && 0 <= i / 5 < 5);
    }
    assert forall|i: int, j: int| 0 <= i < j < d.len() implies d[i] != d[j] by {
        if d[i] == d[j] {
            assert(i % 5 == j % 5);
            assert(i / 5 == j / 5);
            assert(i == 5 * (i / 5) + i % 5);
            assert(j == 5 * (j / 5) + j % 5);
        }
    }
}

/// A cell lies within the bounds of the tile that holds it.
pub proof fn law_tile_holds_cell(space: WorldSpaceId, cell: CellCoord)
    ensures
        tile_minimum(tile_containing(space, cell)).x <= cell.x <= tile_maximum(tile_containing(space, cell)).x,
        tile_minimum(tile_containing(space, cell)).z <= cell.z <= tile_maximum(tile_containing(space, cell)).z,
{
    let x = cell.x as int;
    let z = cell.z as int;
    assert(0 <= x - (x / 16) * 16 < 16) by (nonlinear_arith);
    assert(0 <= z - (z / 16) * 16 < 16) by (nonlinear_arith);
}

/// The derived overview job of a tile.
pub fn overview_job_key(tile: OverviewTileKey) -> (k: DerivedJobKey)
    ensures
        k == tile_job_key(tile),
{
    DerivedJobKey {
        product: DerivedProduct::Overview,
        scope: DerivedJobScope::Region { space: tile.space, minimum: tile.minimum_cell(), maximum: tile.maximum_cell() },
    }
}

/// Every product kind of every tile, tile by tile, each missing.
pub open spec fn missing_products(tiles: Seq<OverviewTileKey>) -> Seq<OverviewProductDemand> {
    Seq::new(
        tiles.len() * 4,
        |i: int| OverviewProductDemand { tile: tiles[i / 4], kind: all_kinds()[i % 4], state: OverviewProductState::Missing },
    )
}

/// The abstract state of the overview.
pub struct OverviewView {
    pub mode: OverviewMode,
    pub tiles: Seq<OverviewTileKey>,
    pub products: Seq<OverviewProductDemand>,
}

/// The state a product shows, given whether its tile's artifact is ready or failed.
pub open spec fn product_state(ready: bool, failed: bool, mode: OverviewMode) -> OverviewProductState {
    if ready {
        OverviewProductState::Ready
    } else if failed {
        OverviewProductState::Failed
    } else if mode == OverviewMode::Overview {
        OverviewProductState::Requested
    } else {
        OverviewProductState::Missing
    }
}

/// The overview's mode, demanded tiles and their products.
pub struct OverviewState {
    mode: OverviewMode,
    tiles: Vec<OverviewTileKey>,
    products: Vec<OverviewProductDemand>,
}

impl View for OverviewState {
    type V = OverviewView;

    closed spec fn view(&self) -> OverviewView {
        OverviewView { mode: self.mode, tiles: self.tiles@, products: self.products@ }
    }
}

impl OverviewState {
    /// Detail mode, with nothing demanded.
    pub fn new() -> (s: Self)
        ensures
            s@.mode == OverviewMode::Detail,
            s@.tiles.len() == 0 && s@.products.len() == 0,
    {
        OverviewState { mode: OverviewMode::Detail, tiles: Vec::new(), products: Vec::new() }
    }

    /// The current mode.
    pub fn mode(&self) -> (m: OverviewMode)
        ensures
            m == self@.mode,
    {
        self.mode
    }

    /// The demanded tiles.
    pub fn tiles(&self) -> (t: &[OverviewTileKey])
        ensures
            t@ == self@.tiles,
    {
        self.tiles.as_slice()
    }

    /// The products of the demanded tiles.
    pub fn products(&self) -> (p: &[OverviewProductDemand])
        ensures
            p@ == self@.products,
    {
        self.products.as_slice()
    }

    /// Sets the mode and demands the tiles around the viewpoint, every product missing; with no
    /// viewpoint nothing is demanded.
    pub fn update(&mut self, mode: OverviewMode, position: Option<(WorldSpaceId, CellCoord)>)
        ensures
            final(self)@.mode == mode,
            position is None ==> final(self)@.tiles.len() == 0 && final(self)@.products.len() == 0,
            position matches Some(p) ==> final(self)@.tiles == demanded(p.0, p.1) && final(self)@.products
                == missing_products(demanded(p.0, p.1)),
    {
        self.mode = mode;
        match position {
            None => {
                self.tiles = Vec::new();
                self.products = Vec::new();
            },
            Some((space, cell)) => {
                let tiles = demanded_tiles(space, cell);
                let kinds = OverviewProductKind::all();
                let mut products: Vec<OverviewProductDemand> = Vec::new();
                let mut t: usize = 0;
                while t < tiles.len()
                    invariant
                        t <= tiles@.len(),
                        tiles@.len() == MAX_OVERVIEW_TILES,
                        kinds@ == all_kinds(),
                        products@.len() == t * 4,
                        forall|i: int| 0 <= i < products@.len() ==> #[trigger] products@[i] == missing_products(tiles@)[i],
                    decreases tiles@.len() - t,
                {
                    let mut k: usize = 0;
                    while k < 4
                        invariant
                            t < tiles@.len(),
                            tiles@.len() == MAX_OVERVIEW_TILES,
                            kinds@ == all_kinds(),
                            k <= 4,
                            products@.len() == t * 4 + k,
                            forall|i: int| 0 <= i < products@.len() ==> #[trigger] products@[i] == missing_products(tiles@)[i],
                        decreases 4 - k,
                    {
                        let ghost i = products@.len() as int;
                        products.push(OverviewProductDemand { tile: tiles[t], kind: kinds[k], state: OverviewProductState::Missing });
                        proof {
                            assert(i / 4 == t);
                            assert(i % 4 == k);
                        }
                        k = k + 1;
                    }
                    t = t + 1;
                }
                proof {
                    assert(products@ =~= missing_products(tiles@));
                }
                self.tiles = tiles;
                self.products = products;
            },
        }
    }

    /// The derived requests of the overview: in overview mode, the job of each demanded tile
    /// at the source epoch (at least one); in detail mode none.
    pub fn requests(&self, source_epoch: u64) -> (r: Vec<(DerivedJobKey, u64)>)
        ensures
            self@.mode == OverviewMode::Detail ==> r@.len() == 0,
            self@.mode == OverviewMode::Overview ==> r@ == self@.tiles.map_values(
                |t: OverviewTileKey| (tile_job_key(t), if source_epoch == 0 { 1u64 } else { source_epoch }),
            ),
    {
        let mut r: Vec<(DerivedJobKey, u64)> = Vec::new();
        if self.mode == OverviewMode::Detail {
            return r;
        }
        let epoch = if source_epoch == 0 {
            1
        } else {
            source_epoch
        };
        let mut i: usize = 0;
        while i < self.tiles.len()
            invariant
                i <= self.tiles@.len(),
                epoch == (if source_epoch == 0 { 1u64 } else { source_epoch }),
                r@ == self.tiles@.take(i as int).map_values(
                    |t: OverviewTileKey| (tile_job_key(t), if source_epoch == 0 { 1u64 } else { source_epoch }),
                ),
            decreases self.tiles@.len() - i,
        {
            r.push((overview_job_key(self.tiles[i]), epoch));
            proof {
                assert(self.tiles@.take(i + 1).map_values(
                    |t: OverviewTileKey| (tile_job_key(t), if source_epoch == 0 { 1u64 } else { source_epoch }),
                ) =~= self.tiles@.take(i as int).map_values(
                    |t: OverviewTileKey| (tile_job_key(t), if source_epoch == 0 { 1u64 } else { source_epoch }),
                ).push((tile_job_key(self.tiles@[i as int]), epoch)));
            }
            i = i + 1;
        }
        assert(self.tiles@.take(i as int) =~= self.tiles@);
        r
    }

    /// Hands the overview's requests to the scheduler under the overview's tool, replacing the
    /// ones it made before.
    pub fn request_products(&self, source_epoch: u64, scheduler: &mut DerivedJobScheduler)
        requires
            old(scheduler).wf(),
        ensures
            final(scheduler).wf(),
            final(scheduler)@ == crate::jobs::replace_model(
                old(scheduler)@,
                EditorToolId(OVERVIEW_DERIVED_OWNER),
                if self@.mode == OverviewMode::Overview {
                    self@.tiles.map_values(
                        |t: OverviewTileKey| (tile_job_key(t), if source_epoch == 0 { 1u64 } else { source_epoch }),
                    )
                } else {
                    Seq::empty()
                },
            ),
    {
        let requests = self.requests(source_epoch);
        proof {
            if self@.mode == OverviewMode::Detail {
                assert(requests@ =~= Seq::empty());
            }
        }
        scheduler.replace_tool_requests(EditorToolId(OVERVIEW_DERIVED_OWNER), requests);
    }

    /// Updates each product's state from the derived artifacts of its tile: ready when an
    /// artifact was accepted, failed when the job failed, otherwise requested in overview mode
    /// and missing in detail mode.
    pub fn sync_products(&mut self, artifacts: &DerivedArtifactStore)
        requires
            artifacts.wf(),
        ensures
            final(self)@.mode == old(self)@.mode,
            final(self)@.tiles == old(self)@.tiles,
            final(self)@.products.len() == old(self)@.products.len(),
            forall|i: int| 0 <= i < old(self)@.products.len() ==> #[trigger] final(self)@.products[i] == (OverviewProductDemand {
                state: product_state(
                    old(self)@.tiles.contains(old(self)@.products[i].tile) && artifacts@.artifacts.contains_key(
                        tile_job_key(old(self)@.products[i].tile),
                    ),
                    old(self)@.tiles.contains(old(self)@.products[i].tile) && artifacts@.failures.contains_key(
                        tile_job_key(old(self)@.products[i].tile),
                    ),
                    old(self)@.mode,
                ),
                ..old(self)@.products[i]
            }),
    {
        let ghost start = self.products@;
        let mut i: usize = 0;
        while i < self.products.len()
            invariant
                i <= self.products@.len(),
                self.products@.len() == start.len(),
                self.tiles@ == old(self)@.tiles,
                self.mode == old(self)@.mode,
                artifacts.wf(),
                forall|j: int| i <= j < start.len() ==> self.products@[j] == start[j],
                forall|j: int| 0 <= j < i ==> #[trigger] self.products@[j] == (OverviewProductDemand {
                    state: product_state(
                        old(self)@.tiles.contains(start[j].tile) && artifacts@.artifacts.contains_key(tile_job_key(start[j].tile)),
                        old(self)@.tiles.contains(start[j].tile) && artifacts@.failures.contains_key(tile_job_key(start[j].tile)),
                        old(self)@.mode,
                    ),
                    ..start[j]
                }),
            decreases start.len() - i,
        {
            let product = self.products[i];
            let listed = self.tile_listed(product.tile);
            let key = overview_job_key(product.tile);
            let ready = listed && artifacts.get(key).is_some();
            let failed = listed && artifacts.failure(key).is_some();
            let state = if ready {
                OverviewProductState::Ready
            } else if failed {
                OverviewProductState::Failed
            } else if self.mode == OverviewMode::Overview {
                OverviewProductState::Requested
            } else {
                OverviewProductState::Missing
            };
            self.products.set(i, OverviewProductDemand { state, ..product });
            i = i + 1;
        }
    }

    fn tile_listed(&self, tile: OverviewTileKey) -> (r: bool)
        ensures
            r == self@.tiles.contains(tile),
    {
        let mut i: usize = 0;
        while i < self.tiles.len()
            invariant
                i <= self.tiles@.len(),
                forall|j: int| 0 <= j < i ==> self.tiles@[j] != tile,
            decreases self.tiles@.len() - i,
        {
            if self.tiles[i] == tile {
                assert(self.tiles@[i as int] == tile);
                return true;
            }
            i = i + 1;
        }
        false
    }
}

} // verus!
