//! The ground-cover brush's effect on a coverage mask: painting raises each sample to the
//! brush's influence, erasing lowers it to what the influence leaves, and repeating a stroke
//! changes nothing more.

use vstd::prelude::*;

verus! {

/// What a ground-cover stroke does.
#[derive(Clone, Copy, Debug, PartialEq, Eq, Structural)]
pub enum GroundCoverBrushMode {
    Paint,
    Erase,
}

/// The coverage of a sample after the brush touched it with an influence.
pub open spec fn influenced(mode: GroundCoverBrushMode, current: u8, influence: u8) -> u8 {
    match mode {
        GroundCoverBrushMode::Paint => if current >= influence {
            current
        } else {
            influence
        },
        GroundCoverBrushMode::Erase => if current <= 255 - influence {
            current
        } else {
            (255 - influence) as u8
        },
    }
}

/// The label of a mode.
pub open spec fn mode_label(mode: GroundCoverBrushMode) -> Seq<char> {
    match mode {
        GroundCoverBrushMode::Paint => "Paint"@,
        GroundCoverBrushMode::Erase => "Erase"@,
    }
}

impl GroundCoverBrushMode {
    /// The mode a new tool starts in.
    pub fn default_mode() -> (m: Self)
        ensures
            m == GroundCoverBrushMode::Paint,
    {
        GroundCoverBrushMode::Paint
    }

    /// The label of the mode.
    pub fn label(self) -> (r: &'static str)
        ensures
            r@ == mode_label(self),
    {
        proof {
            reveal_strlit("Paint");
            reveal_strlit("Erase");
        }
        match self {
            GroundCoverBrushMode::Paint => "Paint",
            GroundCoverBrushMode::Erase => "Erase",
        }
    }

    /// The coverage of a sample after the brush touched it with an influence: painting keeps
    /// the larger of the two, erasing caps the coverage at what the influence leaves.
    pub fn apply_influence(self, current: u8, influence: u8) -> (r: u8)
        ensures
            r == influenced(self, current, influence),
    {
        match self {
            GroundCoverBrushMode::Paint => if current >= influence {
                current
            } else {
                influence
            },
            GroundCoverBrushMode::Erase => {
                let cap = u8::MAX - influence;
                if current <= cap {
                    current
                } else {
                    cap
                }
            },
        }
    }
}

/// The mask after one stroke sample: each sample with a nonzero influence is touched by the
/// brush.
pub open spec fn stroked(mode: GroundCoverBrushMode, coverage: Seq<u8>, influences: Seq<u8>) -> Seq<u8> {
    Seq::new(
        coverage.len(),
        |i: int| if influences[i] == 0 {
            coverage[i]
        } else {
            influenced(mode, coverage[i], influences[i])
        },
    )
}

/// Applies one stroke sample's influences to a mask, sample by sample; reports whether any
/// sample changed.
pub fn apply_influences(mode: GroundCoverBrushMode, coverage: &mut Vec<u8>, influences: &[u8]) -> (changed: bool)
    requires
        influences@.len() == old(coverage)@.len(),
    ensures
        final(coverage)@ == stroked(mode, old(coverage)@, influences@),
        changed == (final(coverage)@ != old(coverage)@),
{
    let ghost start = coverage@;
    let mut changed = false;
    let mut i: usize = 0;
    while i < coverage.len()
        invariant
            i <= coverage@.len(),
            coverage@.len() == start.len(),
            influences@.len() == start.len(),
            forall|j: int| 0 <= j < i ==> coverage@[j] == stroked(mode, start, influences@)[j],
            forall|j: int| i <= j < start.len() ==> coverage@[j] == start[j],
            changed == exists|j: int| 0 <= j < i && coverage@[j] != start[j],
        decreases start.len() - i,
    {
        let influence = influences[i];
        let ghost before = coverage@;
        if influence != 0 {
            let value = mode.apply_influence(coverage[i], influence);
            if coverage[i] != value {
                coverage.set(i, value);
                changed = true;
            }
        }
        proof {
            assert forall|j: int| 0 <= j < i implies coverage@[j] == before[j] by {}
            if changed {
                if coverage@[i as int] != start[i as int] {
                    assert(exists|j: int| 0 <= j < i + 1 && coverage@[j] != start[j]);
                } else {
                    let j = choose|j: int| 0 <= j < i && before[j] != start[j];
                    assert(coverage@[j] != start[j]);
                }
            } else {
                assert(coverage@[i as int] == start[i as int]);
                assert forall|j: int| 0 <= j < i + 1 implies coverage@[j] == start[j] by {
                    if j < i {
                        assert(!(before[j] != start[j]));
                    }
                }
            }
        }
        i = i + 1;
    }
    proof {
        assert(coverage@ =~= stroked(mode, start, influences@));
        if !changed {
            assert(coverage@ =~= start);
        } else {
            let j = choose|j: int| 0 <= j < i && coverage@[j] != start[j];
            assert(coverage@[j] != start[j]);
        }
    }
    changed
}

/// Repeating a stroke changes nothing more: the brush is idempotent, painting never lowers a
/// sample and erasing never raises one.
pub proof fn law_stroke_is_idempotent(mode: GroundCoverBrushMode, coverage: Seq<u8>, influences: Seq<u8>)
    requires
        influences.len() == coverage.len(),
    ensures
        stroked(mode, stroked(mode, coverage, influences), influences) == stroked(mode, coverage, influences),
        forall|i: int| 0 <= i < coverage.len() ==> (mode == GroundCoverBrushMode::Paint ==> coverage[i]
            <= #[trigger] stroked(mode, coverage, influences)[i]),
        forall|i: int| 0 <= i < coverage.len() ==> (mode == GroundCoverBrushMode::Erase ==> #[trigger] stroked(
            mode,
            coverage,
            influences,
        )[i] <= coverage[i]),
{
    assert(stroked(mode, stroked(mode, coverage, influences), influences) =~= stroked(mode, coverage, influences));
}

} // verus!
