//! Typed preview modes and the lifecycle of the transient preview session.

use vstd::prelude::*;

use crate::jobs::{DerivedJobKey, DerivedJobScope, DerivedProduct};
use crate::project_store::EditorSourceDomain;
use crate::world::{CellCoord, WorldSpaceId};

verus! {

/// The tool identity under which previews request derived products.
pub const PREVIEW_DERIVED_OWNER: u32 = 2;

/// At most this many fixed simulation steps run per frame of the gameplay preview.
pub const MAX_GAMEPLAY_STEPS_PER_FRAME: usize = 8;

/// What the world view previews.
#[derive(Clone, Copy, Debug, PartialEq, Eq, Hash, Structural)]
pub enum EditorPreviewMode {
    Authoring,
    Collision,
    Navigation,
    Gameplay,
}

/// What a preview mode reads and how it runs.
#[derive(Clone, Debug, PartialEq, Eq)]
pub struct PreviewModeDescriptor {
    pub domains: Vec<EditorSourceDomain>,
    pub isolated_simulation: bool,
    pub full_rate: bool,
}

/// The source domains a mode reads.
pub open spec fn mode_domains(mode: EditorPreviewMode) -> Seq<EditorSourceDomain> {
    match mode {
        EditorPreviewMode::Authoring => seq![
            EditorSourceDomain::CellDescriptors,
            EditorSourceDomain::ObjectPlacements,
            EditorSourceDomain::ObjectDefinitions,
        ],
        EditorPreviewMode::Collision => seq![
            EditorSourceDomain::CellDescriptors,
            EditorSourceDomain::ObjectPlacements,
            EditorSourceDomain::Collision,
        ],
        EditorPreviewMode::Navigation => seq![
            EditorSourceDomain::CellDescriptors,
            EditorSourceDomain::ObjectPlacements,
            EditorSourceDomain::Navigation,
        ],
        EditorPreviewMode::Gameplay => seq![
            EditorSourceDomain::CellDescriptors,
            EditorSourceDomain::ObjectPlacements,
            EditorSourceDomain::Navigation,
            EditorSourceDomain::Collision,
        ],
    }
}

/// The derived products a mode shows.
pub open spec fn mode_products(mode: Option<EditorPreviewMode>) -> Seq<DerivedProduct> {
    match mode {
        Some(EditorPreviewMode::Collision) => seq![DerivedProduct::Collision],
        Some(EditorPreviewMode::Navigation) => seq![DerivedProduct::Navigation],
        Some(EditorPreviewMode::Gameplay) => seq![
            DerivedProduct::Collision,
            DerivedProduct::Navigation,
        ],
        _ => Seq::empty(),
    }
}

impl EditorPreviewMode {
    /// Every mode, in the order the mode picker lists them.
    pub fn all() -> (r: [EditorPreviewMode; 4])
        ensures
            r@ == seq![
                EditorPreviewMode::Authoring,
                EditorPreviewMode::Collision,
                EditorPreviewMode::Navigation,
                EditorPreviewMode::Gameplay,
            ],
    {
        let r = [
            EditorPreviewMode::Authoring,
            EditorPreviewMode::Collision,
            EditorPreviewMode::Navigation,
            EditorPreviewMode::Gameplay,
        ];
        assert(r@ =~= seq![
            EditorPreviewMode::Authoring,
            EditorPreviewMode::Collision,
            EditorPreviewMode::Navigation,
            EditorPreviewMode::Gameplay,
        ]);
        r
    }

    /// The mode's name in the picker.
    pub fn label(self) -> (r: &'static str)
        ensures
            r@ == (match self {
                EditorPreviewMode::Authoring => "Authoring"@,
                EditorPreviewMode::Collision => "Collision"@,
                EditorPreviewMode::Navigation => "Navigation"@,
                EditorPreviewMode::Gameplay => "Gameplay"@,
            }),
    {
        match self {
            EditorPreviewMode::Authoring => "Authoring",
            EditorPreviewMode::Collision => "Collision",
            EditorPreviewMode::Navigation => "Navigation",
            EditorPreviewMode::Gameplay => "Gameplay",
        }
    }

    /// What the mode reads; only gameplay runs an isolated simulation, at full frame rate.
    pub fn descriptor(self) -> (d: PreviewModeDescriptor)
        ensures
            d.domains@ == mode_domains(self),
            d.isolated_simulation == (self == EditorPreviewMode::Gameplay),
            d.full_rate == (self == EditorPreviewMode::Gameplay),
    {
        match self {
            EditorPreviewMode::Authoring => PreviewModeDescriptor {
                domains: vec![
                    EditorSourceDomain::CellDescriptors,
                    EditorSourceDomain::ObjectPlacements,
                    EditorSourceDomain::ObjectDefinitions,
                ],
                isolated_simulation: false,
                full_rate: false,
            },
            EditorPreviewMode::Collision => PreviewModeDescriptor {
                domains: vec![
                    EditorSourceDomain::CellDescriptors,
                    EditorSourceDomain::ObjectPlacements,
                    EditorSourceDomain::Collision,
                ],
                isolated_simulation: false,
                full_rate: false,
            },
            EditorPreviewMode::Navigation => PreviewModeDescriptor {
                domains: vec![
                    EditorSourceDomain::CellDescriptors,
                    EditorSourceDomain::ObjectPlacements,
                    EditorSourceDomain::Navigation,
                ],
                isolated_simulation: false,
                full_rate: false,
            },
            EditorPreviewMode::Gameplay => PreviewModeDescriptor {
                domains: vec![
                    EditorSourceDomain::CellDescriptors,
                    EditorSourceDomain::ObjectPlacements,
                    EditorSourceDomain::Navigation,
                    EditorSourceDomain::Collision,
                ],
                isolated_simulation: true,
                full_rate: true,
            },
        }
    }
}

/// What starting a preview session asks of the host: a fresh session of the mode under the
/// generation; the session entity is spawned for every mode but authoring, and full frame rate
/// is requested when the mode needs it.
#[derive(Clone, Copy, Debug, PartialEq, Eq, Structural)]
pub struct PreviewActivation {
    pub mode: EditorPreviewMode,
    pub generation: u64,
    pub spawn_session: bool,
    pub full_rate: bool,
}

/// The requested and active preview modes and the generation of the current session.
#[derive(Clone, Copy, Debug, PartialEq, Eq, Structural)]
pub struct PreviewModeState {
    requested: EditorPreviewMode,
    active: Option<EditorPreviewMode>,
    generation: u64,
}

/// The generation after the current one: one more, wrapping, but never zero.
pub open spec fn next_generation(g: u64) -> u64 {
    if g == u64::MAX {
        1
    } else {
        (g + 1) as u64
    }
}

impl PreviewModeState {
    /// The requested mode.
    pub closed spec fn requested_spec(&self) -> EditorPreviewMode {
        self.requested
    }

    /// The active mode.
    pub closed spec fn active_spec(&self) -> Option<EditorPreviewMode> {
        self.active
    }

    /// The generation of the current session.
    pub closed spec fn generation_spec(&self) -> u64 {
        self.generation
    }

    /// Authoring is requested, nothing is active, no session was started.
    pub fn new() -> (s: Self)
        ensures
            s.requested_spec() == EditorPreviewMode::Authoring,
            s.active_spec() is None,
            s.generation_spec() == 0,
    {
        PreviewModeState { requested: EditorPreviewMode::Authoring, active: None, generation: 0 }
    }

    /// The requested mode.
    pub fn requested(&self) -> (r: EditorPreviewMode)
        ensures
            r == self.requested_spec(),
    {
        self.requested
    }

    /// The active mode.
    pub fn active(&self) -> (r: Option<EditorPreviewMode>)
        ensures
            r == self.active_spec(),
    {
        self.active
    }

    /// The generation of the current session.
    pub fn generation(&self) -> (r: u64)
        ensures
            r == self.generation_spec(),
    {
        self.generation
    }

    /// Requests a mode; it becomes active at the next activation.
    pub fn request(&mut self, mode: EditorPreviewMode)
        ensures
            final(self).requested_spec() == mode,
            final(self).active_spec() == old(self).active_spec(),
            final(self).generation_spec() == old(self).generation_spec(),
    {
        self.requested = mode;
    }

    /// Makes the requested mode active. Nothing happens when it is active already; otherwise
    /// a new generation starts and the host is told what the new session needs.
    pub fn activate(&mut self) -> (r: Option<PreviewActivation>)
        ensures
            old(self).active_spec() == Some(old(self).requested_spec()) ==> r is None
                && *final(self) == *old(self),
            old(self).active_spec() != Some(old(self).requested_spec()) ==> {
                &&& final(self).requested_spec() == old(self).requested_spec()
                &&& final(self).active_spec() == Some(old(self).requested_spec())
                &&& final(self).generation_spec() == next_generation(old(self).generation_spec())
                &&& r == Some(
                    PreviewActivation {
                        mode: old(self).requested_spec(),
                        generation: next_generation(old(self).generation_spec()),
                        spawn_session: old(self).requested_spec() != EditorPreviewMode::Authoring,
                        full_rate: old(self).requested_spec() == EditorPreviewMode::Gameplay,
                    },
                )
            },
    {
        if self.active == Some(self.requested) {
            return None;
        }
        let next = self.generation.wrapping_add(1);
        self.generation = if next < 1 {
            1
        } else {
            next
        };
        self.active = Some(self.requested);
        let descriptor = self.requested.descriptor();
        Some(
            PreviewActivation {
                mode: self.requested,
                generation: self.generation,
                spawn_session: self.requested != EditorPreviewMode::Authoring,
                full_rate: descriptor.full_rate,
            },
        )
    }

    /// Ends the session when the world workspace is left; the request stays.
    pub fn suspend(&mut self)
        ensures
            final(self).requested_spec() == old(self).requested_spec(),
            final(self).active_spec() is None,
            final(self).generation_spec() == old(self).generation_spec(),
    {
        self.active = None;
    }
}

/// The derived products an active mode shows.
pub fn preview_products(active: Option<EditorPreviewMode>) -> (r: Vec<DerivedProduct>)
    ensures
        r@ == mode_products(active),
{
    match active {
        Some(EditorPreviewMode::Collision) => vec![DerivedProduct::Collision],
        Some(EditorPreviewMode::Navigation) => vec![DerivedProduct::Navigation],
        Some(EditorPreviewMode::Gameplay) => vec![
            DerivedProduct::Collision,
            DerivedProduct::Navigation,
        ],
        _ => Vec::new(),
    }
}

/// The request of a product for one cell.
pub open spec fn cell_request(product: DerivedProduct, cell: (WorldSpaceId, CellCoord), revision: u64) -> (
    DerivedJobKey,
    u64,
) {
    (
        DerivedJobKey {
            product,
            scope: DerivedJobScope::Cell { space: cell.0, cell: cell.1 },
        },
        revision,
    )
}

/// The requests of the products for the cells, cell by cell, each product in turn.
pub open spec fn preview_requests_spec(
    cells: Seq<(WorldSpaceId, CellCoord)>,
    products: Seq<DerivedProduct>,
    revision: u64,
) -> Seq<(DerivedJobKey, u64)>
    decreases cells.len(),
{
    if cells.len() == 0 {
        Seq::empty()
    } else {
        preview_requests_spec(cells.drop_last(), products, revision) + products.map_values(
            |p: DerivedProduct| cell_request(p, cells.last(), revision),
        )
    }
}

/// The requests an active mode makes for the loaded cells, at the source epoch (at least 1).
pub fn preview_requests(
    cells: &[(WorldSpaceId, CellCoord)],
    active: Option<EditorPreviewMode>,
    source_epoch: u64,
) -> (r: Vec<(DerivedJobKey, u64)>)
    ensures
        r@ == preview_requests_spec(
            cells@,
            mode_products(active),
            if source_epoch < 1 {
                1
            } else {
                source_epoch
            },
        ),
{
    let products = preview_products(active);
    let revision = if source_epoch < 1 {
        1
    } else {
        source_epoch
    };
    let mut r: Vec<(DerivedJobKey, u64)> = Vec::new();
    let mut i: usize = 0;
    while i < cells.len()
        invariant
            i <= cells@.len(),
            products@ == mode_products(active),
            r@ == preview_requests_spec(cells@.take(i as int), products@, revision),
        decreases cells@.len() - i,
    {
        let (space, cell) = cells[i];
        let ghost before = r@;
        let mut j: usize = 0;
        while j < products.len()
            invariant
                j <= products@.len(),
                cells@[i as int] == (space, cell),
                r@ == before + products@.take(j as int).map_values(
                    |p: DerivedProduct| cell_request(p, (space, cell), revision),
                ),
            decreases products@.len() - j,
        {
            r.push(
                (
                    DerivedJobKey {
                        product: products[j],
                        scope: DerivedJobScope::Cell { space, cell },
                    },
                    revision,
                ),
            );
            proof {
                assert(r@ =~= before + products@.take(j + 1).map_values(
                    |p: DerivedProduct| cell_request(p, (space, cell), revision),
                ));
            }
            j = j + 1;
        }
        proof {
            assert(products@.take(j as int) =~= products@);
            assert(cells@.take(i + 1).drop_last() =~= cells@.take(i as int));
        }
        i = i + 1;
    }
    proof {
        assert(cells@.take(i as int) =~= cells@);
    }
    r
}

/// Every activation moves to a generation that differs from the current one and is never
/// zero, so a session of an earlier generation is never mistaken for the current one.
pub proof fn law_generation_changes_and_is_never_zero(g: u64)
    ensures
        next_generation(g) != g,
        next_generation(g) != 0,
{
}

/// An active mode requests exactly the derived products for the domains its descriptor reads
/// beyond cells, placements and definitions: navigation products when it reads navigation,
/// collision products when it reads collision, no other product and none twice. No active mode
/// requests nothing.
pub proof fn law_products_follow_mode_domains(mode: EditorPreviewMode, p: DerivedProduct)
    ensures
        mode_products(Some(mode)).contains(p) <==> ((p == DerivedProduct::Navigation && mode_domains(mode).contains(
            EditorSourceDomain::Navigation,
        )) || (p == DerivedProduct::Collision && mode_domains(mode).contains(EditorSourceDomain::Collision))),
        mode_products(Some(mode)).no_duplicates(),
        mode_products(None).len() == 0,
{
    let d = mode_domains(mode);
    let m = mode_products(Some(mode));
    match mode {
        EditorPreviewMode::Authoring => {
            assert(!d.contains(EditorSourceDomain::Navigation)) by {
                if d.contains(EditorSourceDomain::Navigation) {
                    let i = choose|i: int| 0 <= i < d.len() && d[i] == EditorSourceDomain::Navigation;
                }
            }
            assert(!d.contains(EditorSourceDomain::Collision)) by {
                if d.contains(EditorSourceDomain::Collision) {
                    let i = choose|i: int| 0 <= i < d.len() && d[i] == EditorSourceDomain::Collision;
                }
            }
        },
        EditorPreviewMode::Collision => {
            assert(d[2] == EditorSourceDomain::Collision);
            assert(!d.contains(EditorSourceDomain::Navigation)) by {
                if d.contains(EditorSourceDomain::Navigation) {
                    let i = choose|i: int| 0 <= i < d.len() && d[i] == EditorSourceDomain::Navigation;
                }
            }
            assert(m[0] == DerivedProduct::Collision);
        },
        EditorPreviewMode::Navigation => {
            assert(d[2] == EditorSourceDomain::Navigation);
            assert(!d.contains(EditorSourceDomain::Collision)) by {
                if d.contains(EditorSourceDomain::Collision) {
                    let i = choose|i: int| 0 <= i < d.len() && d[i] == EditorSourceDomain::Collision;
                }
            }
            assert(m[0] == DerivedProduct::Navigation);
        },
        EditorPreviewMode::Gameplay => {
            assert(d[2] == EditorSourceDomain::Navigation);
            assert(d[3] == EditorSourceDomain::Collision);
            assert(m[0] == DerivedProduct::Collision);
            assert(m[1] == DerivedProduct::Navigation);
        },
    }
}

} // verus!
