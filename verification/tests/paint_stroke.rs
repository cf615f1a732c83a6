use yarra_editor::commands::EditorCommand;
use yarra_editor::coverage::CoverageWorkingSet;
use yarra_editor::definitions::{DefinitionWorkingSet, LibraryChecks};
use yarra_editor::history::EditorHistory;
use yarra_editor::layers::LayerId;
use yarra_editor::objects::EditorObjectWorkingSet;
use yarra_editor::paint_stroke::PaintStroke;
use yarra_editor::stamps::{CoverageTile, EnvironmentCellRecord};
use yarra_editor::world::{CellCoord, WorldSpaceId};

fn cell(x: i32, value: u8) -> EnvironmentCellRecord {
    EnvironmentCellRecord {
        space: WorldSpaceId(1),
        cell: CellCoord { x, z: 0 },
        source_revision: 1,
        definition_revision: 1,
        tiles: vec![CoverageTile { layer: LayerId(5), samples: vec![value; 9] }],
    }
}

fn tiles(value: u8) -> Vec<CoverageTile> {
    vec![CoverageTile { layer: LayerId(5), samples: vec![value; 9] }]
}

fn passing() -> LibraryChecks {
    LibraryChecks { catalog: Ok(()), plans: Ok(()) }
}

#[test]
fn a_stroke_keeps_each_cells_first_coverage_and_records_once() {
    let mut dense = CoverageWorkingSet::from_environment_records(&[cell(0, 10), cell(1, 10)]);
    let mut history: EditorHistory<EditorCommand> = EditorHistory::new();
    let mut stroke = PaintStroke::begin(WorldSpaceId(1), LayerId(5), &mut dense);
    assert!(dense.gesture_active());
    let at = |x| CellCoord { x, z: 0 };
    stroke.apply_segment(&[at(0), at(1)], &[tiles(50), tiles(10)], &mut dense, &[]).unwrap();
    assert_eq!(dense.environment_record(WorldSpaceId(1), at(0)).unwrap().tiles, tiles(50));
    assert_eq!(stroke.before_for(at(0)).unwrap().tiles, tiles(10));
    assert!(stroke.before_for(at(1)).is_none());
    stroke.apply_segment(&[at(0)], &[tiles(90)], &mut dense, &[]).unwrap();
    assert_eq!(stroke.before_for(at(0)).unwrap().tiles, tiles(10));
    assert_eq!(stroke.finish(false, &mut dense, &[], &mut history), None);
    assert!(!dense.gesture_active());
    assert_eq!(dense.dirty_count(), 1);
    let mut objects = EditorObjectWorkingSet::new();
    let mut environment = DefinitionWorkingSet::new();
    assert!(history.undo(&mut objects, &mut dense, &mut environment, &[], &passing(), false));
    assert_eq!(dense.environment_record(WorldSpaceId(1), at(0)).unwrap().tiles, tiles(10));
    assert_eq!(dense.dirty_count(), 0);
}

#[test]
fn a_cancelled_stroke_writes_back_the_coverage_from_before() {
    let mut dense = CoverageWorkingSet::from_environment_records(&[cell(0, 10)]);
    let mut history: EditorHistory<EditorCommand> = EditorHistory::new();
    let at = CellCoord { x: 0, z: 0 };
    let mut stroke = PaintStroke::begin(WorldSpaceId(1), LayerId(5), &mut dense);
    stroke.apply_segment(&[at], &[tiles(70)], &mut dense, &[]).unwrap();
    assert_eq!(dense.dirty_count(), 1);
    assert_eq!(stroke.finish(true, &mut dense, &[], &mut history), None);
    assert_eq!(dense.environment_record(WorldSpaceId(1), at).unwrap().tiles, tiles(10));
    assert_eq!(dense.dirty_count(), 0);
    let mut objects = EditorObjectWorkingSet::new();
    let mut environment = DefinitionWorkingSet::new();
    assert!(!history.undo(&mut objects, &mut dense, &mut environment, &[], &passing(), false));
}

#[test]
fn segments_over_unloaded_cells_or_the_budget_are_refused() {
    let records = (0..65).map(|x| cell(x, 10)).collect::<Vec<_>>();
    let mut dense = CoverageWorkingSet::from_environment_records(&records);
    let mut stroke = PaintStroke::begin(WorldSpaceId(1), LayerId(5), &mut dense);
    let far = CellCoord { x: 200, z: 0 };
    assert_eq!(
        stroke.apply_segment(&[far], &[tiles(1)], &mut dense, &[]).unwrap_err(),
        "Loading paint area…"
    );
    let cells = (0..65).map(|x| CellCoord { x, z: 0 }).collect::<Vec<_>>();
    let results = (0..65).map(|_| tiles(80)).collect::<Vec<_>>();
    assert_eq!(
        stroke.apply_segment(&cells, &results, &mut dense, &[]).unwrap_err(),
        "Release the brush to finish this stroke before painting more area"
    );
    assert_eq!(dense.dirty_count(), 0);
    stroke.apply_segment(&cells[..64], &results[..64], &mut dense, &[]).unwrap();
    assert_eq!(dense.dirty_count(), 64);
    assert_eq!(
        stroke.apply_segment(&cells[64..], &results[64..], &mut dense, &[]).unwrap_err(),
        "Release the brush to finish this stroke before painting more area"
    );
    // Cells the stroke already holds may be painted again.
    stroke.apply_segment(&cells[..2], &[tiles(81), tiles(82)], &mut dense, &[]).unwrap();
    assert_eq!(stroke.space(), WorldSpaceId(1));
    assert_eq!(stroke.layer(), LayerId(5));
}

#[test]
fn a_finished_stroke_records_its_cells_in_cell_order() {
    let mut dense = CoverageWorkingSet::from_environment_records(&[cell(0, 10), cell(1, 20), cell(2, 30)]);
    let mut history: EditorHistory<EditorCommand> = EditorHistory::new();
    let at = |x| CellCoord { x, z: 0 };
    let mut stroke = PaintStroke::begin(WorldSpaceId(1), LayerId(5), &mut dense);
    stroke.apply_segment(&[at(2)], &[tiles(60)], &mut dense, &[]).unwrap();
    stroke.apply_segment(&[at(0)], &[tiles(70)], &mut dense, &[]).unwrap();
    assert_eq!(stroke.finish(false, &mut dense, &[], &mut history), None);
    assert_eq!(history.undo_len(), 1);
    match &history.undo_entries()[0].command {
        EditorCommand::Environment { before, after } => {
            assert_eq!(before.iter().map(|r| r.cell.x).collect::<Vec<_>>(), vec![0, 2]);
            assert_eq!(before[0].tiles, tiles(10));
            assert_eq!(before[1].tiles, tiles(30));
            assert_eq!(after.iter().map(|r| r.cell.x).collect::<Vec<_>>(), vec![0, 2]);
            assert_eq!(after[0].tiles, tiles(70));
            assert_eq!(after[1].tiles, tiles(60));
        }
        _ => panic!("expected an environment command"),
    }
}
