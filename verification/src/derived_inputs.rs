//! The inputs of derived jobs and the bounded artifacts built from them: counts and
//! order-sensitive fingerprints of the source records that a job covers.

use vstd::prelude::*;

use crate::artifacts::DerivedArtifact;
use crate::jobs::DerivedProduct;
use crate::assoc::{has_key, keys_unique};
use crate::jobs::{find_key, scope_contains, spec_scope_contains, DerivedJobKey, DerivedJobScope};
use crate::objects::{DirtyObjectSnapshot, SourceObjectRecord};
use crate::stamps::{be_bytes, push_be};
use crate::world::{CellCoord, StableObjectId, WorldSpaceId};

verus! {

broadcast use vstd::seq_lib::lemma_seq_contains_after_push;

/// The FNV-1a 64-bit offset basis.
pub const FNV_OFFSET: u64 = 0xcbf29ce484222325;

/// The FNV-1a 64-bit prime.
pub const FNV_PRIME: u64 = 0x100000001b3;

/// The source descriptor of a cell; the height is held by its bit pattern.
#[derive(Clone, Copy, Debug, PartialEq, Eq, Structural)]
pub struct SourceCellRecord {
    pub space: WorldSpaceId,
    pub cell: CellCoord,
    pub height_bits: u32,
    pub source_revision: i64,
}

/// One terrain weight page of a cell: RGBA weight texels.
#[derive(Clone, Debug, PartialEq, Eq)]
pub struct TerrainWeightPage {
    pub space: WorldSpaceId,
    pub cell: CellCoord,
    pub page: u32,
    pub resolution: u32,
    pub rgba: Vec<u8>,
    pub source_revision: i64,
}

/// One FNV-1a step: the byte is mixed in, then the hash is multiplied by the prime.
pub open spec fn fnv_step(hash: u64, byte: u8) -> u64 {
    (hash ^ (byte as u64)).wrapping_mul(FNV_PRIME)
}

/// The hash after mixing in the bytes in order.
pub open spec fn fnv_fold(hash: u64, bytes: Seq<u8>) -> u64
    decreases bytes.len(),
{
    if bytes.len() == 0 {
        hash
    } else {
        fnv_step(fnv_fold(hash, bytes.drop_last()), bytes.last())
    }
}

/// The bits of `x` rotated left by `n`, as `u64::rotate_left` does for `0 < n < 64`.
pub open spec fn rotl(x: u64, n: u64) -> u64
    recommends
        0 < n < 64,
{
    (x << n) | (x >> (64 - n))
}

fn rotate(x: u64, n: u64) -> (r: u64)
    requires
        0 < n < 64,
    ensures
        r == rotl(x, n),
{
    (x << n) | (x >> (64 - n))
}

/// The bytes that identify an object: its id, then its definition, each most significant
/// byte first.
pub open spec fn object_bytes(o: SourceObjectRecord) -> Seq<u8> {
    be_bytes(o.id.0 as nat, 16) + be_bytes(o.definition as nat, 16)
}

/// The fingerprint after one more object.
pub open spec fn object_step(hash: u64, o: SourceObjectRecord) -> u64 {
    fnv_fold(hash, object_bytes(o)) ^ rotl(o.source_revision as u64, 17)
}

/// The fingerprint of objects in order.
pub open spec fn objects_fingerprint(objects: Seq<SourceObjectRecord>) -> u64
    decreases objects.len(),
{
    if objects.len() == 0 {
        FNV_OFFSET
    } else {
        object_step(objects_fingerprint(objects.drop_last()), objects.last())
    }
}

/// The hash a terrain page starts its bytes from.
pub open spec fn page_seed(hash: u64, p: TerrainWeightPage) -> u64 {
    hash ^ (p.space.0 as u64) ^ rotl(p.cell.x as u64, 11) ^ rotl(p.cell.z as u64, 23) ^ (
    p.page as u64)
}

/// The fingerprint of terrain pages in order.
pub open spec fn terrain_fingerprint(pages: Seq<TerrainWeightPage>) -> u64
    decreases pages.len(),
{
    if pages.len() == 0 {
        FNV_OFFSET
    } else {
        fnv_fold(page_seed(terrain_fingerprint(pages.drop_last()), pages.last()), pages.last().rgba@)
    }
}

/// The fingerprint after one more cell.
pub open spec fn cell_step(hash: u64, c: SourceCellRecord) -> u64 {
    hash ^ (c.space.0 as u64) ^ rotl(c.cell.x as u64, 7) ^ rotl(c.cell.z as u64, 31) ^ (
    c.height_bits as u64) ^ rotl(c.source_revision as u64, 41)
}

/// The fingerprint of cells in order, started from the fingerprint of the objects.
pub open spec fn spatial_fingerprint(
    cells: Seq<SourceCellRecord>,
    objects: Seq<SourceObjectRecord>,
) -> u64
    decreases cells.len(),
{
    if cells.len() == 0 {
        objects_fingerprint(objects)
    } else {
        cell_step(spatial_fingerprint(cells.drop_last(), objects), cells.last())
    }
}

/// One FNV-1a step.
pub fn fnv_byte(hash: u64, byte: u8) -> (r: u64)
    ensures
        r == fnv_step(hash, byte),
{
    (hash ^ (byte as u64)).wrapping_mul(FNV_PRIME)
}

fn fnv_bytes(hash: u64, bytes: &[u8]) -> (r: u64)
    ensures
        r == fnv_fold(hash, bytes@),
{
    let mut h = hash;
    let mut i: usize = 0;
    while i < bytes.len()
        invariant
            i <= bytes@.len(),
            h == fnv_fold(hash, bytes@.take(i as int)),
        decreases bytes@.len() - i,
    {
        proof {
            assert(bytes@.take(i + 1).drop_last() =~= bytes@.take(i as int));
        }
        h = fnv_byte(h, bytes[i]);
        i = i + 1;
    }
    proof {
        assert(bytes@.take(i as int) =~= bytes@);
    }
    h
}

/// The fingerprint of objects in order.
pub fn fingerprint_objects(objects: &[SourceObjectRecord]) -> (r: u64)
    ensures
        r == objects_fingerprint(objects@),
{
    let mut h = FNV_OFFSET;
    let mut i: usize = 0;
    while i < objects.len()
        invariant
            i <= objects@.len(),
            h == objects_fingerprint(objects@.take(i as int)),
        decreases objects@.len() - i,
    {
        let o = objects[i];
        let mut bytes: Vec<u8> = Vec::new();
        push_be(&mut bytes, o.id.0, 16);
        push_be(&mut bytes, o.definition, 16);
        proof {
            assert(bytes@ =~= object_bytes(o));
            assert(objects@.take(i + 1).drop_last() =~= objects@.take(i as int));
        }
        h = fnv_bytes(h, bytes.as_slice()) ^ rotate(o.source_revision as u64, 17);
        i = i + 1;
    }
    proof {
        assert(objects@.take(i as int) =~= objects@);
    }
    h
}

/// The fingerprint of terrain pages in order.
pub fn fingerprint_terrain(pages: &[TerrainWeightPage]) -> (r: u64)
    ensures
        r == terrain_fingerprint(pages@),
{
    let mut h = FNV_OFFSET;
    let mut i: usize = 0;
    while i < pages.len()
        invariant
            i <= pages@.len(),
            h == terrain_fingerprint(pages@.take(i as int)),
        decreases pages@.len() - i,
    {
        let p = &pages[i];
        let seed = h ^ (p.space.0 as u64) ^ rotate(p.cell.x as u64, 11) ^ rotate(p.cell.z as u64, 23)
            ^ (p.page as u64);
        proof {
            assert(pages@.take(i + 1).drop_last() =~= pages@.take(i as int));
        }
        h = fnv_bytes(seed, p.rgba.as_slice());
        i = i + 1;
    }
    proof {
        assert(pages@.take(i as int) =~= pages@);
    }
    h
}

/// The fingerprint of cells in order, started from the fingerprint of the objects.
pub fn fingerprint_spatial(cells: &[SourceCellRecord], objects: &[SourceObjectRecord]) -> (r: u64)
    ensures
        r == spatial_fingerprint(cells@, objects@),
{
    let mut h = fingerprint_objects(objects);
    let mut i: usize = 0;
    while i < cells.len()
        invariant
            i <= cells@.len(),
            h == spatial_fingerprint(cells@.take(i as int), objects@),
        decreases cells@.len() - i,
    {
        let c = cells[i];
        proof {
            assert(cells@.take(i + 1).drop_last() =~= cells@.take(i as int));
        }
        h = h ^ (c.space.0 as u64) ^ rotate(c.cell.x as u64, 7) ^ rotate(c.cell.z as u64, 31) ^ (
        c.height_bits as u64) ^ rotate(c.source_revision as u64, 41);
        i = i + 1;
    }
    proof {
        assert(cells@.take(i as int) =~= cells@);
    }
    h
}

/// The source records a derived job works on.
#[derive(Clone, Debug)]
pub enum DerivedJobInput {
    Objects(Vec<SourceObjectRecord>),
    Terrain(Vec<TerrainWeightPage>),
    Spatial { cells: Vec<SourceCellRecord>, objects: Vec<SourceObjectRecord> },
    OverviewQuery { space: WorldSpaceId, minimum: CellCoord, maximum: CellCoord },
}

/// The sum of the bytes.
pub open spec fn byte_sum(bytes: Seq<u8>) -> nat
    decreases bytes.len(),
{
    if bytes.len() == 0 {
        0
    } else {
        byte_sum(bytes.drop_last()) + bytes.last() as nat
    }
}

/// The number of weight channels of the pages.
pub open spec fn channel_total(pages: Seq<TerrainWeightPage>) -> nat
    decreases pages.len(),
{
    if pages.len() == 0 {
        0
    } else {
        channel_total(pages.drop_last()) + pages.last().rgba@.len()
    }
}

/// The number of whole RGBA texels of the pages, counted page by page.
pub open spec fn texel_total(pages: Seq<TerrainWeightPage>) -> nat
    decreases pages.len(),
{
    if pages.len() == 0 {
        0
    } else {
        texel_total(pages.drop_last()) + pages.last().rgba@.len() / 4
    }
}

/// The sum of all weight channels of the pages.
pub open spec fn weight_total(pages: Seq<TerrainWeightPage>) -> nat
    decreases pages.len(),
{
    if pages.len() == 0 {
        0
    } else {
        weight_total(pages.drop_last()) + byte_sum(pages.last().rgba@)
    }
}

proof fn lemma_texels_at_most_channels(pages: Seq<TerrainWeightPage>)
    ensures
        texel_total(pages) <= channel_total(pages),
    decreases pages.len(),
{
    if pages.len() > 0 {
        lemma_texels_at_most_channels(pages.drop_last());
    }
}

proof fn lemma_weight_prefix(pages: Seq<TerrainWeightPage>, i: int)
    requires
        0 <= i <= pages.len(),
    ensures
        weight_total(pages.take(i)) <= weight_total(pages),
        channel_total(pages.take(i)) <= channel_total(pages),
    decreases pages.len() - i,
{
    if i < pages.len() {
        lemma_weight_prefix(pages, i + 1);
        assert(pages.take(i + 1).drop_last() =~= pages.take(i));
    } else {
        assert(pages.take(i) =~= pages);
    }
}

proof fn lemma_byte_prefix(bytes: Seq<u8>, i: int)
    requires
        0 <= i <= bytes.len(),
    ensures
        byte_sum(bytes.take(i)) <= byte_sum(bytes),
    decreases bytes.len() - i,
{
    if i < bytes.len() {
        lemma_byte_prefix(bytes, i + 1);
        assert(bytes.take(i + 1).drop_last() =~= bytes.take(i));
    } else {
        assert(bytes.take(i) =~= bytes);
    }
}

/// The terrain artifact of pages: page and texel counts, weight sum and channel count, and
/// fingerprint.
pub open spec fn terrain_artifact(pages: Seq<TerrainWeightPage>) -> DerivedArtifact {
    DerivedArtifact::TerrainPage {
        page_count: pages.len() as usize,
        texel_count: texel_total(pages) as usize,
        weight_total: weight_total(pages) as u64,
        channel_count: channel_total(pages) as usize,
        fingerprint: terrain_fingerprint(pages),
    }
}

fn sum_bytes(bytes: &[u8], start: u64) -> (r: u64)
    requires
        start + byte_sum(bytes@) <= u64::MAX,
    ensures
        r == start + byte_sum(bytes@),
{
    let mut total = start;
    let mut i: usize = 0;
    while i < bytes.len()
        invariant
            i <= bytes@.len(),
            start + byte_sum(bytes@) <= u64::MAX,
            total == start + byte_sum(bytes@.take(i as int)),
        decreases bytes@.len() - i,
    {
        proof {
            assert(bytes@.take(i + 1).drop_last() =~= bytes@.take(i as int));
            lemma_byte_prefix(bytes@, i + 1);
        }
        total = total + bytes[i] as u64;
        i = i + 1;
    }
    proof {
        assert(bytes@.take(i as int) =~= bytes@);
    }
    total
}

/// Builds the terrain artifact of pages.
pub fn build_terrain_artifact(pages: &[TerrainWeightPage]) -> (a: DerivedArtifact)
    requires
        channel_total(pages@) <= usize::MAX,
        weight_total(pages@) <= u64::MAX,
    ensures
        a == terrain_artifact(pages@),
{
    let mut texels: usize = 0;
    let mut channels: usize = 0;
    let mut weights: u64 = 0;
    let mut i: usize = 0;
    while i < pages.len()
        invariant
            i <= pages@.len(),
            channel_total(pages@) <= usize::MAX,
            weight_total(pages@) <= u64::MAX,
            texels == texel_total(pages@.take(i as int)),
            channels == channel_total(pages@.take(i as int)),
            weights == weight_total(pages@.take(i as int)),
        decreases pages@.len() - i,
    {
        proof {
            assert(pages@.take(i + 1).drop_last() =~= pages@.take(i as int));
            lemma_weight_prefix(pages@, i + 1);
            lemma_texels_at_most_channels(pages@.take(i + 1));
        }
        let n = pages[i].rgba.len();
        texels = texels + n / 4;
        channels = channels + n;
        weights = sum_bytes(pages[i].rgba.as_slice(), weights);
        i = i + 1;
    }
    proof {
        assert(pages@.take(i as int) =~= pages@);
    }
    DerivedArtifact::TerrainPage {
        page_count: pages.len(),
        texel_count: texels,
        weight_total: weights,
        channel_count: channels,
        fingerprint: fingerprint_terrain(pages),
    }
}

/// The name of a product.
pub open spec fn product_name(product: DerivedProduct) -> Seq<char> {
    match product {
        DerivedProduct::CookedObjectPage => "CookedObjectPage"@,
        DerivedProduct::TerrainPage => "TerrainPage"@,
        DerivedProduct::Collision => "Collision"@,
        DerivedProduct::Navigation => "Navigation"@,
        DerivedProduct::Overview => "Overview"@,
    }
}

fn product_text(product: DerivedProduct) -> (r: &'static str)
    ensures
        r@ == product_name(product),
{
    match product {
        DerivedProduct::CookedObjectPage => "CookedObjectPage",
        DerivedProduct::TerrainPage => "TerrainPage",
        DerivedProduct::Collision => "Collision",
        DerivedProduct::Navigation => "Navigation",
        DerivedProduct::Overview => "Overview",
    }
}

/// Whether a product can be built from an input kind without a database.
pub open spec fn input_matches(product: DerivedProduct, input: DerivedJobInput) -> bool {
    match (product, input) {
        (DerivedProduct::CookedObjectPage, DerivedJobInput::Objects(_)) => true,
        (DerivedProduct::TerrainPage, DerivedJobInput::Terrain(_)) => true,
        (DerivedProduct::Collision, DerivedJobInput::Spatial { .. }) => true,
        (DerivedProduct::Navigation, DerivedJobInput::Spatial { .. }) => true,
        _ => false,
    }
}

/// Builds the artifact of a product from its input: object pages count and fingerprint their
/// objects, terrain pages their weights, collision and navigation their cells and objects. An
/// input of another kind is refused with a message that names the product.
pub fn build_artifact(product: DerivedProduct, input: DerivedJobInput) -> (r: Result<
    DerivedArtifact,
    String,
>)
    requires
        input matches DerivedJobInput::Terrain(pages) ==> channel_total(pages@) <= usize::MAX
            && weight_total(pages@) <= u64::MAX,
    ensures
        !input_matches(product, input) ==> (r matches Err(e) && e@
            == "derived input does not match "@ + product_name(product)),
        product == DerivedProduct::CookedObjectPage ==> (input matches DerivedJobInput::Objects(
            objects,
        ) ==> r == Ok::<DerivedArtifact, String>(
            DerivedArtifact::CookedObjectPage {
                object_count: objects@.len() as usize,
                fingerprint: objects_fingerprint(objects@),
            },
        )),
        product == DerivedProduct::TerrainPage ==> (input matches DerivedJobInput::Terrain(pages)
            ==> r == Ok::<DerivedArtifact, String>(terrain_artifact(pages@))),
        product == DerivedProduct::Collision ==> (input matches DerivedJobInput::Spatial {
            cells,
            objects,
        } ==> r == Ok::<DerivedArtifact, String>(
            DerivedArtifact::Collision {
                cell_count: cells@.len() as usize,
                object_count: objects@.len() as usize,
                fingerprint: spatial_fingerprint(cells@, objects@),
            },
        )),
        product == DerivedProduct::Navigation ==> (input matches DerivedJobInput::Spatial {
            cells,
            objects,
        } ==> r == Ok::<DerivedArtifact, String>(
            DerivedArtifact::Navigation {
                cell_count: cells@.len() as usize,
                obstacle_count: objects@.len() as usize,
                fingerprint: spatial_fingerprint(cells@, objects@),
            },
        )),
{
    match (product, input) {
        (DerivedProduct::CookedObjectPage, DerivedJobInput::Objects(objects)) => {
            Ok(
                DerivedArtifact::CookedObjectPage {
                    object_count: objects.len(),
                    fingerprint: fingerprint_objects(objects.as_slice()),
                },
            )
        },
        (DerivedProduct::TerrainPage, DerivedJobInput::Terrain(pages)) => {
            Ok(build_terrain_artifact(pages.as_slice()))
        },
        (DerivedProduct::Collision, DerivedJobInput::Spatial { cells, objects }) => {
            Ok(
                DerivedArtifact::Collision {
                    cell_count: cells.len(),
                    object_count: objects.len(),
                    fingerprint: fingerprint_spatial(cells.as_slice(), objects.as_slice()),
                },
            )
        },
        (DerivedProduct::Navigation, DerivedJobInput::Spatial { cells, objects }) => {
            Ok(
                DerivedArtifact::Navigation {
                    cell_count: cells.len(),
                    obstacle_count: objects.len(),
                    fingerprint: fingerprint_spatial(cells.as_slice(), objects.as_slice()),
                },
            )
        },
        (product, _) => {
            let mut m = String::from_str("derived input does not match ");
            m.append(product_text(product));
            Err(m)
        },
    }
}

/// At most this many cells are read for one overview tile.
pub const OVERVIEW_MAX_CELLS: usize = 256;

/// At most this many object icons are read for one overview tile.
pub const OVERVIEW_MAX_OBJECT_ICONS: usize = 2048;

/// At most this many terrain pages are read for one overview tile.
pub const OVERVIEW_MAX_TERRAIN_PAGES: usize = 512;

/// The overview bundle of a tile's cells, objects and terrain pages.
pub open spec fn overview_fingerprint(
    cells: Seq<SourceCellRecord>,
    objects: Seq<SourceObjectRecord>,
    terrain: Seq<TerrainWeightPage>,
) -> u64 {
    spatial_fingerprint(cells, objects) ^ rotl(terrain_fingerprint(terrain), 13)
}

/// Builds the overview bundle of a tile from its bounded reads: coarse heights and status of
/// each cell, an icon for each object, and a fingerprint of all. A read that was cut off at
/// its bound fails the tile.
pub fn overview_artifact(
    cells: &[SourceCellRecord],
    cells_truncated: bool,
    objects: &[SourceObjectRecord],
    objects_truncated: bool,
    terrain: &[TerrainWeightPage],
    terrain_truncated: bool,
) -> (r: Result<DerivedArtifact, String>)
    ensures
        (cells_truncated || objects_truncated || terrain_truncated) ==> (r matches Err(e) && e@
            == "overview tile exceeded its bounded source artifact capacity"@),
        !(cells_truncated || objects_truncated || terrain_truncated) ==> (r matches Ok(
            DerivedArtifact::Overview { coarse_heights, object_icons, cell_status, fingerprint },
        ) && coarse_heights@ == cells@.map_values(
            |c: SourceCellRecord| (c.cell, c.height_bits),
        ) && object_icons@ == objects@.map_values(
            |o: SourceObjectRecord| (o.id, o.transform.owner_cell),
        ) && cell_status@ == cells@.map_values(|c: SourceCellRecord| (c.cell, c.source_revision))
            && fingerprint == overview_fingerprint(cells@, objects@, terrain@)),
{
    if cells_truncated || objects_truncated || terrain_truncated {
        return Err(String::from_str("overview tile exceeded its bounded source artifact capacity"));
    }
    let mut coarse_heights: Vec<(CellCoord, u32)> = Vec::new();
    let mut cell_status: Vec<(CellCoord, i64)> = Vec::new();
    let mut i: usize = 0;
    while i < cells.len()
        invariant
            i <= cells@.len(),
            coarse_heights@ == cells@.take(i as int).map_values(
                |c: SourceCellRecord| (c.cell, c.height_bits),
            ),
            cell_status@ == cells@.take(i as int).map_values(
                |c: SourceCellRecord| (c.cell, c.source_revision),
            ),
        decreases cells@.len() - i,
    {
        let c = cells[i];
        coarse_heights.push((c.cell, c.height_bits));
        cell_status.push((c.cell, c.source_revision));
        proof {
            assert(cells@.take(i + 1).map_values(|c: SourceCellRecord| (c.cell, c.height_bits))
                =~= coarse_heights@);
            assert(cells@.take(i + 1).map_values(
                |c: SourceCellRecord| (c.cell, c.source_revision),
            ) =~= cell_status@);
        }
        i = i + 1;
    }
    let mut object_icons: Vec<(StableObjectId, CellCoord)> = Vec::new();
    let mut k: usize = 0;
    while k < objects.len()
        invariant
            k <= objects@.len(),
            object_icons@ == objects@.take(k as int).map_values(
                |o: SourceObjectRecord| (o.id, o.transform.owner_cell),
            ),
        decreases objects@.len() - k,
    {
        let o = objects[k];
        object_icons.push((o.id, o.transform.owner_cell));
        proof {
            assert(objects@.take(k + 1).map_values(
                |o: SourceObjectRecord| (o.id, o.transform.owner_cell),
            ) =~= object_icons@);
        }
        k = k + 1;
    }
    proof {
        assert(cells@.take(i as int) =~= cells@);
        assert(objects@.take(k as int) =~= objects@);
    }
    let fingerprint = fingerprint_spatial(cells, objects) ^ rotate(fingerprint_terrain(terrain), 13);
    Ok(DerivedArtifact::Overview { coarse_heights, object_icons, cell_status, fingerprint })
}

/// The saved objects whose owner cell lies in the scope, by id; a later record of an id
/// replaces an earlier one.
pub open spec fn saved_in_scope(saved: Seq<SourceObjectRecord>, scope: DerivedJobScope) -> Map<
    StableObjectId,
    SourceObjectRecord,
>
    decreases saved.len(),
{
    if saved.len() == 0 {
        Map::empty()
    } else {
        let m = saved_in_scope(saved.drop_last(), scope);
        let o = saved.last();
        if spec_scope_contains(scope, o.transform.space, o.transform.owner_cell) {
            m.insert(o.id, o)
        } else {
            m
        }
    }
}

/// One dirty object laid over the objects of a scope: its edited record when it lies in the
/// scope, nothing of it when it was moved out or deleted.
pub open spec fn apply_dirty(
    m: Map<StableObjectId, SourceObjectRecord>,
    d: DirtyObjectSnapshot,
    scope: DerivedJobScope,
) -> Map<StableObjectId, SourceObjectRecord> {
    match d.current {
        Some(c) => if spec_scope_contains(scope, c.transform.space, c.transform.owner_cell) {
            m.insert(c.id, c)
        } else {
            m.remove(c.id)
        },
        None => match d.base {
            Some(b) => m.remove(b.id),
            None => m,
        },
    }
}

/// The objects a job of the scope works on: the saved ones with the dirty ones laid over them
/// in order.
pub open spec fn scope_objects(
    saved: Seq<SourceObjectRecord>,
    dirty: Seq<DirtyObjectSnapshot>,
    scope: DerivedJobScope,
) -> Map<StableObjectId, SourceObjectRecord>
    decreases dirty.len(),
{
    if dirty.len() == 0 {
        saved_in_scope(saved, scope)
    } else {
        apply_dirty(scope_objects(saved, dirty.drop_last(), scope), dirty.last(), scope)
    }
}

/// The records are in strictly ascending order of id.
pub open spec fn ids_ascending(v: Seq<SourceObjectRecord>) -> bool {
    forall|i: int, j: int| 0 <= i < j < v.len() ==> v[i].id.0 < v[j].id.0
}

/// The records are exactly the values of the map, each under its own id.
pub open spec fn holds_exactly(v: Seq<SourceObjectRecord>, m: Map<StableObjectId, SourceObjectRecord>) -> bool {
    &&& forall|id: StableObjectId|
        m.dom().contains(id) <==> exists|i: int| 0 <= i < v.len() && (#[trigger] v[i]).id == id
    &&& forall|i: int| 0 <= i < v.len() ==> m[(#[trigger] v[i]).id] == v[i]
}

/// The first position whose id is not below the given one.
fn lower_bound(v: &Vec<SourceObjectRecord>, id: u128) -> (p: usize)
    requires
        ids_ascending(v@),
    ensures
        p <= v@.len(),
        forall|i: int| 0 <= i < p ==> v@[i].id.0 < id,
        forall|i: int| p <= i < v@.len() ==> v@[i].id.0 >= id,
{
    let mut p: usize = 0;
    while p < v.len() && v[p].id.0 < id
        invariant
            p <= v@.len(),
            ids_ascending(v@),
            forall|i: int| 0 <= i < p ==> v@[i].id.0 < id,
        decreases v@.len() - p,
    {
        p = p + 1;
    }
    p
}

/// Puts a record under its id, replacing the record of that id.
fn upsert(v: &mut Vec<SourceObjectRecord>, o: SourceObjectRecord, Ghost(m): Ghost<Map<StableObjectId, SourceObjectRecord>>)
    requires
        ids_ascending(old(v)@),
        holds_exactly(old(v)@, m),
    ensures
        ids_ascending(final(v)@),
        holds_exactly(final(v)@, m.insert(o.id, o)),
{
    let p = lower_bound(v, o.id.0);
    if p < v.len() && v[p].id.0 == o.id.0 {
        v.set(p, o);
        proof {
            let w = v@;
            assert forall|id: StableObjectId|
                m.insert(o.id, o).dom().contains(id) <==> exists|i: int|
                    0 <= i < w.len() && (#[trigger] w[i]).id == id by {
                if id == o.id {
                    assert(w[p as int].id == id);
                } else if m.dom().contains(id) {
                    let i = choose|i: int| 0 <= i < old(v)@.len() && (#[trigger] old(v)@[i]).id == id;
                    assert(w[i].id == id);
                }
                if exists|i: int| 0 <= i < w.len() && (#[trigger] w[i]).id == id {
                    let i = choose|i: int| 0 <= i < w.len() && (#[trigger] w[i]).id == id;
                    if i != p {
                        assert(old(v)@[i].id == id);
                    }
                }
            }
            assert forall|i: int| 0 <= i < w.len() implies m.insert(o.id, o)[(#[trigger] w[i]).id] == w[i] by {
                if i != p {
                    assert(old(v)@[i] == w[i]);
                    assert(old(v)@[i].id.0 != o.id.0);
                }
            }
        }
    } else {
        v.insert(p, o);
        proof {
            let w = v@;
            assert forall|i: int, j: int| 0 <= i < j < w.len() implies w[i].id.0 < w[j].id.0 by {
                if j < p {
                } else if i < p && j == p {
                } else if i < p {
                    assert(w[j] == old(v)@[j - 1]);
                } else if i == p {
                    assert(w[j] == old(v)@[j - 1]);
                } else {
                    assert(w[i] == old(v)@[i - 1]);
                    assert(w[j] == old(v)@[j - 1]);
                }
            }
            assert forall|id: StableObjectId|
                m.insert(o.id, o).dom().contains(id) <==> exists|i: int|
                    0 <= i < w.len() && (#[trigger] w[i]).id == id by {
                if id == o.id {
                    assert(w[p as int].id == id);
                } else if m.dom().contains(id) {
                    let i = choose|i: int| 0 <= i < old(v)@.len() && (#[trigger] old(v)@[i]).id == id;
                    if i < p {
                        assert(w[i].id == id);
                    } else {
                        assert(w[i + 1].id == id);
                    }
                }
                if exists|i: int| 0 <= i < w.len() && (#[trigger] w[i]).id == id {
                    let i = choose|i: int| 0 <= i < w.len() && (#[trigger] w[i]).id == id;
                    if i < p {
                        assert(old(v)@[i].id == id);
                    } else if i > p {
                        assert(old(v)@[i - 1].id == id);
                    }
                }
            }
            assert forall|i: int| 0 <= i < w.len() implies m.insert(o.id, o)[(#[trigger] w[i]).id] == w[i] by {
                if i < p {
                    assert(old(v)@[i] == w[i]);
                } else if i > p {
                    assert(old(v)@[i - 1] == w[i]);
                }
            }
        }
    }
}

/// Drops the record of an id, if any.
fn remove_id(v: &mut Vec<SourceObjectRecord>, id: StableObjectId, Ghost(m): Ghost<Map<StableObjectId, SourceObjectRecord>>)
    requires
        ids_ascending(old(v)@),
        holds_exactly(old(v)@, m),
    ensures
        ids_ascending(final(v)@),
        holds_exactly(final(v)@, m.remove(id)),
{
    let p = lower_bound(v, id.0);
    if p < v.len() && v[p].id.0 == id.0 {
        v.remove(p);
        proof {
            let w = v@;
            assert forall|i: int, j: int| 0 <= i < j < w.len() implies w[i].id.0 < w[j].id.0 by {
                if j < p {
                } else if i < p {
                    assert(w[j] == old(v)@[j + 1]);
                } else {
                    assert(w[i] == old(v)@[i + 1]);
                    assert(w[j] == old(v)@[j + 1]);
                }
            }
            assert forall|k: StableObjectId|
                m.remove(id).dom().contains(k) <==> exists|i: int|
                    0 <= i < w.len() && (#[trigger] w[i]).id == k by {
                if m.remove(id).dom().contains(k) {
                    let i = choose|i: int| 0 <= i < old(v)@.len() && (#[trigger] old(v)@[i]).id == k;
                    if i < p {
                        assert(w[i].id == k);
                    } else {
                        assert(i != p);
                        assert(w[i - 1].id == k);
                    }
                }
                if exists|i: int| 0 <= i < w.len() && (#[trigger] w[i]).id == k {
                    let i = choose|i: int| 0 <= i < w.len() && (#[trigger] w[i]).id == k;
                    if i < p {
                        assert(old(v)@[i].id == k);
                        assert(old(v)@[i].id.0 < id.0);
                    } else {
                        assert(old(v)@[i + 1].id == k);
                        assert(old(v)@[p as int].id.0 < old(v)@[i + 1].id.0);
                    }
                }
            }
            assert forall|i: int| 0 <= i < w.len() implies m.remove(id)[(#[trigger] w[i]).id] == w[i] by {
                if i < p {
                    assert(old(v)@[i] == w[i]);
                } else {
                    assert(old(v)@[i + 1] == w[i]);
                    assert(old(v)@[p as int].id.0 < old(v)@[i + 1].id.0);
                }
            }
        }
    } else {
        proof {
            assert forall|k: StableObjectId|
                m.remove(id).dom().contains(k) <==> exists|i: int|
                    0 <= i < v@.len() && (#[trigger] v@[i]).id == k by {
                if exists|i: int| 0 <= i < v@.len() && (#[trigger] v@[i]).id == k {
                    let i = choose|i: int| 0 <= i < v@.len() && (#[trigger] v@[i]).id == k;
                    if k == id {
                        assert(v@[i].id.0 == id.0);
                    }
                }
            }
            assert(m.remove(id) =~= m.remove(id));
        }
    }
}

/// The objects a job of the scope works on, in ascending order of id: the saved objects whose
/// owner cell lies in the scope, with the dirty objects laid over them in order (an edited
/// object is taken when it lies in the scope and dropped when it does not; a deleted one is
/// dropped).
pub fn source_objects(
    saved: &[SourceObjectRecord],
    dirty: &[DirtyObjectSnapshot],
    scope: DerivedJobScope,
) -> (r: Vec<SourceObjectRecord>)
    ensures
        ids_ascending(r@),
        holds_exactly(r@, scope_objects(saved@, dirty@, scope)),
{
    let mut v: Vec<SourceObjectRecord> = Vec::new();
    let mut i: usize = 0;
    while i < saved.len()
        invariant
            i <= saved@.len(),
            ids_ascending(v@),
            holds_exactly(v@, saved_in_scope(saved@.take(i as int), scope)),
        decreases saved@.len() - i,
    {
        let o = saved[i];
        proof {
            assert(saved@.take(i + 1).drop_last() =~= saved@.take(i as int));
        }
        if scope_contains(scope, o.transform.space, o.transform.owner_cell) {
            upsert(&mut v, o, Ghost(saved_in_scope(saved@.take(i as int), scope)));
        }
        i = i + 1;
    }
    proof {
        assert(saved@.take(i as int) =~= saved@);
    }
    let mut k: usize = 0;
    while k < dirty.len()
        invariant
            k <= dirty@.len(),
            ids_ascending(v@),
            holds_exactly(v@, scope_objects(saved@, dirty@.take(k as int), scope)),
        decreases dirty@.len() - k,
    {
        let d = &dirty[k];
        let ghost m = scope_objects(saved@, dirty@.take(k as int), scope);
        proof {
            assert(dirty@.take(k + 1).drop_last() =~= dirty@.take(k as int));
        }
        match d.current {
            Some(c) => {
                if scope_contains(scope, c.transform.space, c.transform.owner_cell) {
                    upsert(&mut v, c, Ghost(m));
                } else {
                    remove_id(&mut v, c.id, Ghost(m));
                }
            },
            None => match d.base {
                Some(b) => {
                    remove_id(&mut v, b.id, Ghost(m));
                },
                None => {},
            },
        }
        k = k + 1;
    }
    proof {
        assert(dirty@.take(k as int) =~= dirty@);
    }
    v
}

/// The set of the items of a sequence.
pub open spec fn items<T>(s: Seq<T>) -> Set<T> {
    Set::new(|x: T| s.contains(x))
}

/// The cell of an object record.
pub open spec fn object_cell(o: SourceObjectRecord) -> (WorldSpaceId, CellCoord) {
    (o.transform.space, o.transform.owner_cell)
}

/// Whether a dirty object stands in a cell, as saved or as edited.
pub open spec fn stands_in(d: DirtyObjectSnapshot, c: (WorldSpaceId, CellCoord)) -> bool {
    (match d.base {
        Some(b) => object_cell(b) == c,
        None => false,
    }) || (match d.current {
        Some(o) => object_cell(o) == c,
        None => false,
    })
}

/// The cells that dirty objects stand in, as saved or as edited.
pub open spec fn dirty_cells(dirty: Seq<DirtyObjectSnapshot>) -> Set<(WorldSpaceId, CellCoord)> {
    Set::new(
        |c: (WorldSpaceId, CellCoord)|
            exists|i: int| 0 <= i < dirty.len() && stands_in(#[trigger] dirty[i], c),
    )
}

/// The job keys of the products for single cells.
pub open spec fn cell_request_keys(
    cells: Set<(WorldSpaceId, CellCoord)>,
    products: Seq<DerivedProduct>,
) -> Set<DerivedJobKey> {
    Set::new(
        |k: DerivedJobKey|
            products.contains(k.product) && (k.scope matches DerivedJobScope::Cell { space, cell }
                && cells.contains((space, cell))),
    )
}

/// The cells that dirty objects stand in, as saved or as edited.
pub fn object_cells(dirty: &[DirtyObjectSnapshot]) -> (r: Vec<(WorldSpaceId, CellCoord)>)
    ensures
        items(r@) == dirty_cells(dirty@),
{
    let mut r: Vec<(WorldSpaceId, CellCoord)> = Vec::new();
    let mut i: usize = 0;
    while i < dirty.len()
        invariant
            i <= dirty@.len(),
            items(r@) == dirty_cells(dirty@.take(i as int)),
        decreases dirty@.len() - i,
    {
        let d = &dirty[i];
        let ghost before = r@;
        match d.base {
            Some(b) => {
                r.push((b.transform.space, b.transform.owner_cell));
            },
            None => {},
        }
        match d.current {
            Some(o) => {
                r.push((o.transform.space, o.transform.owner_cell));
            },
            None => {},
        }
        proof {
            let next = dirty@.take(i + 1);
            assert forall|c: (WorldSpaceId, CellCoord)|
                items(r@).contains(c) <==> items(before).contains(c) || stands_in(*d, c) by {}
            assert forall|c: (WorldSpaceId, CellCoord)|
                items(r@).contains(c) <==> dirty_cells(next).contains(c) by {
                if dirty_cells(dirty@.take(i as int)).contains(c) {
                    let k = choose|k: int|
                        0 <= k < i && stands_in(#[trigger] dirty@.take(i as int)[k], c);
                    assert(next[k] == dirty@.take(i as int)[k]);
                    assert(items(before).contains(c));
                }
                if dirty_cells(next).contains(c) {
                    let k = choose|k: int| 0 <= k < i + 1 && stands_in(#[trigger] next[k], c);
                    if k < i {
                        assert(dirty@.take(i as int)[k] == next[k]);
                        assert(dirty_cells(dirty@.take(i as int)).contains(c));
                    }
                }
                if items(r@).contains(c) && !items(before).contains(c) {
                    assert(next[i as int] == *d);
                }
                if items(before).contains(c) {
                    assert(dirty_cells(dirty@.take(i as int)).contains(c));
                }
            }
            assert(items(r@) =~= dirty_cells(next));
        }
        i = i + 1;
    }
    proof {
        assert(dirty@.take(i as int) =~= dirty@);
    }
    r
}

/// The requests of the products for each of the cells, each at the given revision; no key
/// occurs twice.
pub fn cell_requests(
    cells: &[(WorldSpaceId, CellCoord)],
    products: &[DerivedProduct],
    revision: u64,
) -> (r: Vec<(DerivedJobKey, u64)>)
    ensures
        keys_unique(r@),
        forall|i: int| 0 <= i < r@.len() ==> (#[trigger] r@[i]).1 == revision,
        forall|k: DerivedJobKey| has_key(r@, k) <==> cell_request_keys(items(cells@), products@).contains(k),
{
    let mut r: Vec<(DerivedJobKey, u64)> = Vec::new();
    let mut i: usize = 0;
    while i < cells.len()
        invariant
            i <= cells@.len(),
            keys_unique(r@),
            forall|n: int| 0 <= n < r@.len() ==> (#[trigger] r@[n]).1 == revision,
            forall|k: DerivedJobKey|
                #![trigger has_key(r@, k)]
                has_key(r@, k) <==> cell_request_keys(items(cells@.take(i as int)), products@).contains(k),
        decreases cells@.len() - i,
    {
        let (space, cell) = cells[i];
        let ghost before = r@;
        let mut j: usize = 0;
        while j < products.len()
            invariant
                i < cells@.len(),
                cells@[i as int] == (space, cell),
                j <= products@.len(),
                keys_unique(r@),
                forall|n: int| 0 <= n < r@.len() ==> (#[trigger] r@[n]).1 == revision,
                forall|k: DerivedJobKey|
                    #![trigger has_key(r@, k)]
                    has_key(r@, k) <==> (has_key(before, k) || (products@.take(j as int).contains(k.product)
                        && k.scope == DerivedJobScope::Cell { space, cell })),
            decreases products@.len() - j,
        {
            let key = DerivedJobKey { product: products[j], scope: DerivedJobScope::Cell { space, cell } };
            let ghost prior = r@;
            match find_key(&r, key) {
                Some(idx) => {
                    proof {
                        assert(has_key(prior, key) && r@[idx as int].0 == key);
                    }
                },
                None => {
                    r.push((key, revision));
                    proof {
                        assert forall|a: int, b: int|
                            0 <= a < r@.len() && 0 <= b < r@.len() && a != b implies r@[a].0 != r@[b].0 by {
                            if a == r@.len() - 1 {
                                assert(!has_key(prior, key));
                                assert(r@[b] == prior[b]);
                            }
                            if b == r@.len() - 1 {
                                assert(r@[a] == prior[a]);
                            }
                        }
                    }
                },
            }
            proof {
                assert(forall|k: DerivedJobKey| has_key(prior, k) <==> (has_key(before, k) || (products@.take(j as int).contains(k.product)
                        && k.scope == (DerivedJobScope::Cell { space, cell }))));
                assert(forall|n: int| 0 <= n < prior.len() ==> r@[n] == prior[n]);
                assert(r@ == prior || r@ == prior.push((key, revision)));
                assert(has_key(prior, key) ==> r@ == prior);
                assert(products@.take(j + 1) =~= products@.take(j as int).push(products@[j as int]));
                assert forall|k: DerivedJobKey|
                    #![trigger has_key(r@, k)]
                    has_key(r@, k) <==> (has_key(before, k) || (products@.take(j + 1).contains(k.product)
                        && k.scope == DerivedJobScope::Cell { space, cell })) by {
                    if has_key(r@, k) && !has_key(prior, k) {
                        let n = choose|n: int| 0 <= n < r@.len() && r@[n].0 == k;
                        if n < prior.len() {
                            assert(prior[n].0 == k);
                        }
                        assert(n == prior.len());
                        assert(k == key);
                    }
                    if has_key(prior, k) {
                        let n = choose|n: int| 0 <= n < prior.len() && prior[n].0 == k;
                        assert(r@[n] == prior[n]);
                    }
                    if products@.take(j + 1).contains(k.product) && k.scope == (DerivedJobScope::Cell { space, cell }) {
                        if !products@.take(j as int).contains(k.product) {
                            assert(k.product == products@[j as int]);
                            assert(k == key);
                            if !has_key(prior, k) {
                                assert(r@[prior.len() as int].0 == k);
                            }
                        }
                    }
                }
            }
            j = j + 1;
        }
        proof {
            assert(products@.take(j as int) =~= products@);
            let next = cells@.take(i + 1);
            assert(next =~= cells@.take(i as int).push((space, cell)));
            assert forall|k: DerivedJobKey|
                has_key(r@, k) <==> cell_request_keys(items(next), products@).contains(k) by {
                match k.scope {
                    DerivedJobScope::Cell { space: s, cell: c } => {
                        if cells@.take(i as int).contains((s, c)) {
                            assert(next.contains((s, c)));
                        }
                    },
                    _ => {},
                }
            }
        }
        i = i + 1;
    }
    proof {
        assert(cells@.take(i as int) =~= cells@);
    }
    r
}

} // verus!
