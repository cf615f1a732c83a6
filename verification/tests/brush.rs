use yarra_editor::brush::{apply_influences, GroundCoverBrushMode};

#[test]
fn brush_modes_apply_partial_influence_idempotently() {
    assert_eq!(GroundCoverBrushMode::Paint.apply_influence(0, 96), 96);
    assert_eq!(GroundCoverBrushMode::Paint.apply_influence(128, 96), 128);
    assert_eq!(GroundCoverBrushMode::Erase.apply_influence(255, 96), 159);
    assert_eq!(GroundCoverBrushMode::Erase.apply_influence(128, 96), 128);
}

#[test]
fn a_repeated_stroke_changes_nothing_more() {
    let mut coverage = vec![0, 100, 200, 255];
    let influences = [50, 0, 150, 255];
    assert!(apply_influences(GroundCoverBrushMode::Paint, &mut coverage, &influences));
    assert_eq!(coverage, vec![50, 100, 200, 255]);
    assert!(!apply_influences(GroundCoverBrushMode::Paint, &mut coverage, &influences));
    assert!(apply_influences(GroundCoverBrushMode::Erase, &mut coverage, &influences));
    assert_eq!(coverage, vec![50, 100, 105, 0]);
    assert!(!apply_influences(GroundCoverBrushMode::Erase, &mut coverage, &influences));
    assert_eq!(GroundCoverBrushMode::Erase.label(), "Erase");
    assert_eq!(GroundCoverBrushMode::default_mode(), GroundCoverBrushMode::Paint);
}
