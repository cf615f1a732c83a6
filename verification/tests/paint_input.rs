use yarra_editor::coverage::CoverageWorkingSet;
use yarra_editor::layers::LayerId;
use yarra_editor::paint_input::{paint_area_ready, paint_frame, PaintFrame};
use yarra_editor::stamps::{CoverageTile, EnvironmentCellRecord};
use yarra_editor::world::{CellCoord, WorldSpaceId};

fn record(x: i32, revision: u64) -> EnvironmentCellRecord {
    EnvironmentCellRecord {
        space: WorldSpaceId(1),
        cell: CellCoord { x, z: 0 },
        source_revision: 1,
        definition_revision: revision,
        tiles: vec![CoverageTile { layer: LayerId(5), samples: vec![0; 9] }],
    }
}

#[test]
fn escape_cancels_and_release_ends_a_stroke() {
    assert_eq!(paint_frame(true, false, true, true, true), PaintFrame { cancel: true, finish: false, proceed: true });
    assert_eq!(paint_frame(true, false, false, false, true), PaintFrame { cancel: false, finish: true, proceed: true });
    assert_eq!(paint_frame(true, true, false, true, true), PaintFrame { cancel: false, finish: true, proceed: false });
    assert_eq!(paint_frame(false, false, false, true, false), PaintFrame { cancel: false, finish: false, proceed: false });
    assert_eq!(paint_frame(true, false, false, true, true), PaintFrame { cancel: false, finish: false, proceed: true });
}

#[test]
fn painting_waits_for_the_brushed_area_to_load() {
    let space = WorldSpaceId(1);
    let dense = CoverageWorkingSet::from_environment_records(&[record(0, 3), record(1, 2)]);
    let at = |x| CellCoord { x, z: 0 };
    let halo = [at(0), at(1)];
    let loaded = [at(0), at(1), at(2)];
    assert_eq!(paint_area_ready(&dense, space, 3, None, &[at(0)], Some(&halo), &loaded).unwrap_err(), "Loading paint area…");
    assert_eq!(
        paint_area_ready(&dense, space, 3, Some((space, 2)), &[at(0)], Some(&halo), &loaded).unwrap_err(),
        "Loading paint area…"
    );
    assert_eq!(
        paint_area_ready(&dense, space, 3, Some((space, 3)), &[at(0), at(1)], Some(&halo), &loaded).unwrap_err(),
        "Loading paint area… Move closer or use a smaller brush."
    );
    assert_eq!(
        paint_area_ready(&dense, space, 3, Some((space, 3)), &[at(0)], None, &loaded).unwrap_err(),
        "Brush covers too much area"
    );
    assert_eq!(
        paint_area_ready(&dense, space, 3, Some((space, 3)), &[at(0)], Some(&[at(5)]), &loaded).unwrap_err(),
        "Loading neighboring paint cells…"
    );
    assert!(paint_area_ready(&dense, space, 3, Some((space, 3)), &[at(0)], Some(&halo), &loaded).is_ok());
}
