//! Environment definitions (the layers of each world space) and the shared preset library share
//! history, save intent and recovery with the painted coverage: per space the database
//! checkpoint and the local value are kept apart, saves are matched to their request, and a
//! conflict keeps the local edit until it is resolved.

use vstd::prelude::*;

use crate::coverage::{
    any_where, bumped, fits_definition, fits_everywhere, is_conflict, is_pinned, is_saving,
    retarget_entry, CoverageDefinition, CoverageView, CoverageWorkingSet, EntryView,
};
use crate::layers::LayerId;
use crate::objects::{capped, capped_add, capped_mul};
use crate::presets::{
    ascending_ids, bytes_equal, copy_bytes, find_preset, id_set, normalize, normalized_library,
    preset_ids, pviews, remove_preset, replace_preset, same_preset, LibraryView, PresetId,
    PresetLibrary, PresetView,
};
use crate::world::WorldSpaceId;

verus! {

/// A layer name may take at most this many bytes.
pub const MAX_LAYER_NAME_BYTES: usize = 256;

/// A definition may take at most this many bytes. Sizes here are counted with this library's
/// own measure (`definition_size`, `library_size`): framing of `FRAME_BYTES` per item plus the
/// names, encoded settings and surfaces. It is not the length of the definition's RON text,
/// which the library cannot produce, so a definition near a limit may be judged differently.
pub const MAX_DEFINITION_BYTES: usize = 1048576;

/// The dirty definitions together may take at most this many bytes before a save.
pub const MAX_DIRTY_DEFINITION_BYTES: usize = 4194304;

/// The preset library may take at most this many bytes.
pub const MAX_LIBRARY_BYTES: usize = 1048576;

/// The bytes counted for the framing of each library, preset, definition and layer, beside
/// its names, settings and surfaces.
pub const FRAME_BYTES: usize = 64;

/// One layer of an environment definition: its identity, save revision, display name, and its
/// other settings (preset, order, parameters) as their encoded bytes.
#[derive(Debug)]
pub struct EnvironmentLayer {
    pub id: LayerId,
    pub revision: u64,
    pub name: String,
    pub settings: Vec<u8>,
}

/// A layer by value.
pub struct LayerView {
    pub id: LayerId,
    pub revision: u64,
    pub name: Seq<char>,
    pub settings: Seq<u8>,
}

impl View for EnvironmentLayer {
    type V = LayerView;

    open spec fn view(&self) -> LayerView {
        LayerView { id: self.id, revision: self.revision, name: self.name@, settings: self.settings@ }
    }
}

/// The environment definition of one world space: its save revision, its grid (the cell size
/// as its bit pattern, the mask resolution and the terrain surfaces) and its layers.
#[derive(Debug)]
pub struct EnvironmentDefinition {
    pub space: WorldSpaceId,
    pub revision: u64,
    pub cell_size: u32,
    pub mask_resolution: u16,
    pub surfaces: Vec<u128>,
    pub layers: Vec<EnvironmentLayer>,
}

/// A definition by value.
pub struct DefinitionView {
    pub space: WorldSpaceId,
    pub revision: u64,
    pub cell_size: u32,
    pub mask_resolution: u16,
    pub surfaces: Seq<u128>,
    pub layers: Seq<LayerView>,
}

/// Layers by value.
pub open spec fn lviews(s: Seq<EnvironmentLayer>) -> Seq<LayerView> {
    s.map_values(|l: EnvironmentLayer| l@)
}

impl View for EnvironmentDefinition {
    type V = DefinitionView;

    open spec fn view(&self) -> DefinitionView {
        DefinitionView {
            space: self.space,
            revision: self.revision,
            cell_size: self.cell_size,
            mask_resolution: self.mask_resolution,
            surfaces: self.surfaces@,
            layers: lviews(self.layers@),
        }
    }
}

/// Where the save of a definition or of the library stands.
#[derive(Debug)]
pub enum DefinitionSaveState<T> {
    Idle,
    Saving(u64),
    /// The database holds another version (or none) than the save expected.
    Conflict(Option<T>),
    Failed(String),
}

/// Where a save stands, by value.
pub enum StateView<V> {
    Idle,
    Saving(u64),
    Conflict(Option<V>),
    Failed(Seq<char>),
}

/// The save state by value.
pub open spec fn stv<T: View>(s: DefinitionSaveState<T>) -> StateView<T::V> {
    match s {
        DefinitionSaveState::Idle => StateView::Idle,
        DefinitionSaveState::Saving(id) => StateView::Saving(id),
        DefinitionSaveState::Conflict(Some(x)) => StateView::Conflict(Some(x@)),
        DefinitionSaveState::Conflict(None) => StateView::Conflict(None),
        DefinitionSaveState::Failed(e) => StateView::Failed(e@),
    }
}

/// The checkpoint and local value of one space's definition.
#[derive(Debug)]
pub struct DefinitionEntry {
    pub base: EnvironmentDefinition,
    pub current: EnvironmentDefinition,
    pub state: DefinitionSaveState<EnvironmentDefinition>,
}

/// The checkpoint and local value of the preset library.
#[derive(Debug)]
pub struct PresetEntry {
    pub base: PresetLibrary,
    pub current: PresetLibrary,
    pub state: DefinitionSaveState<PresetLibrary>,
}

/// A definition entry by value.
pub struct DefEntryView {
    pub base: DefinitionView,
    pub current: DefinitionView,
    pub state: StateView<DefinitionView>,
}

/// The library entry by value.
pub struct PresetEntryView {
    pub base: LibraryView,
    pub current: LibraryView,
    pub state: StateView<LibraryView>,
}

/// A definition entry by value.
pub open spec fn dev(e: DefinitionEntry) -> DefEntryView {
    DefEntryView { base: e.base@, current: e.current@, state: stv(e.state) }
}

/// The library entry by value.
pub open spec fn pev(e: PresetEntry) -> PresetEntryView {
    PresetEntryView { base: e.base@, current: e.current@, state: stv(e.state) }
}

/// An optional library entry by value.
pub open spec fn opev(e: Option<PresetEntry>) -> Option<PresetEntryView> {
    match e {
        Some(x) => Some(pev(x)),
        None => None,
    }
}

/// A recovery snapshot of one edited definition.
#[derive(Debug)]
pub struct DirtyDefinitionSnapshot {
    pub base: EnvironmentDefinition,
    pub current: EnvironmentDefinition,
}

/// A recovery snapshot of the edited library.
#[derive(Debug)]
pub struct DirtyPresetSnapshot {
    pub base: PresetLibrary,
    pub current: PresetLibrary,
}

/// The working set by value: the entries by ascending space, the library entry once it is
/// loaded, the definition edit revision, and whether the plant catalog is loaded.
pub struct DefinitionsView {
    pub entries: Seq<DefEntryView>,
    pub presets: Option<PresetEntryView>,
    pub revision: u64,
    pub plants_loaded: bool,
}

/// The space of an entry.
pub open spec fn space_of(e: DefEntryView) -> WorldSpaceId {
    e.current.space
}

/// The entries are ordered by strictly ascending space.
pub open spec fn spaces_ascending(s: Seq<DefEntryView>) -> bool {
    forall|i: int, j: int| 0 <= i < j < s.len() ==> space_of(s[i]).0 < space_of(s[j]).0
}

/// Some entry is of the space.
pub open spec fn has_space(s: Seq<DefEntryView>, space: WorldSpaceId) -> bool {
    exists|i: int| 0 <= i < s.len() && space_of(s[i]) == space
}

/// The position of the entry of a space (meaningful when there is one).
pub open spec fn space_index(s: Seq<DefEntryView>, space: WorldSpaceId) -> int {
    choose|i: int| 0 <= i < s.len() && space_of(s[i]) == space
}

/// The local definition differs from its checkpoint.
pub open spec fn def_dirty(e: DefEntryView) -> bool {
    e.base != e.current
}

/// The local library differs from its checkpoint.
pub open spec fn library_dirty(p: Option<PresetEntryView>) -> bool {
    p matches Some(e) && e.base != e.current
}

/// How many entries satisfy `f`.
pub open spec fn count_entries(s: Seq<DefEntryView>, f: spec_fn(DefEntryView) -> bool) -> nat
    decreases s.len(),
{
    if s.len() == 0 {
        0
    } else {
        count_entries(s.drop_last(), f) + if f(s.last()) {
            1nat
        } else {
            0nat
        }
    }
}

/// Some entry satisfies `f`.
pub open spec fn any_entry(s: Seq<DefEntryView>, f: spec_fn(DefEntryView) -> bool) -> bool {
    exists|i: int| 0 <= i < s.len() && f(#[trigger] s[i])
}

/// The library save is in flight.
pub open spec fn library_saving(p: Option<PresetEntryView>) -> bool {
    p matches Some(e) && e.state is Saving
}

/// The library is in conflict.
pub open spec fn library_conflict(p: Option<PresetEntryView>) -> bool {
    p matches Some(e) && e.state is Conflict
}

/// The number of dirty definitions, the library counting as one.
pub open spec fn dirty_total(w: DefinitionsView) -> nat {
    count_entries(w.entries, |e: DefEntryView| def_dirty(e)) + if library_dirty(w.presets) {
        1nat
    } else {
        0nat
    }
}

/// A save of a definition or of the library is in flight.
pub open spec fn definitions_saving(w: DefinitionsView) -> bool {
    library_saving(w.presets) || any_entry(w.entries, |e: DefEntryView| e.state is Saving)
}

/// The number of conflicts, the library counting as one.
pub open spec fn conflict_total(w: DefinitionsView) -> nat {
    count_entries(w.entries, |e: DefEntryView| e.state is Conflict) + if library_conflict(w.presets) {
        1nat
    } else {
        0nat
    }
}

/// What the library's save state reports.
pub open spec fn library_message(p: Option<PresetEntryView>) -> Option<Seq<char>> {
    match p {
        Some(e) => match e.state {
            StateView::Conflict(_) => Some(
                "Shared presets changed in the database; local edits are retained. Resolve the conflict."@,
            ),
            StateView::Failed(m) => Some("Preset save failed: "@ + m),
            _ => None,
        },
        None => None,
    }
}

/// What a definition's save state reports.
pub open spec fn definition_message(st: StateView<DefinitionView>) -> Option<Seq<char>> {
    match st {
        StateView::Failed(m) => Some("Environment save failed: "@ + m),
        StateView::Conflict(_) => Some(
            "The layer definitions changed in the database. Resolve the conflict before continuing."@,
        ),
        _ => None,
    }
}

/// The report of the first entry that has one.
pub open spec fn first_definition_message(s: Seq<DefEntryView>) -> Option<Seq<char>>
    decreases s.len(),
{
    if s.len() == 0 {
        None
    } else if definition_message(s[0].state) is Some {
        definition_message(s[0].state)
    } else {
        first_definition_message(s.drop_first())
    }
}

/// The status line: the library's report, else that of the first space that has one.
pub open spec fn definitions_status(w: DefinitionsView) -> Option<Seq<char>> {
    if library_message(w.presets) is Some {
        library_message(w.presets)
    } else {
        first_definition_message(w.entries)
    }
}

/// The revision after a change, when there is one.
pub open spec fn bump_if(changed: bool, r: u64) -> u64 {
    if changed {
        bumped(r)
    } else {
        r
    }
}

/// A copy of a layer.
pub fn copy_layer(l: &EnvironmentLayer) -> (c: EnvironmentLayer)
    ensures
        c@ == l@,
{
    EnvironmentLayer { id: l.id, revision: l.revision, name: l.name.clone(), settings: copy_bytes(&l.settings) }
}

fn copy_ids(v: &Vec<u128>) -> (r: Vec<u128>)
    ensures
        r@ == v@,
{
    let mut r: Vec<u128> = Vec::new();
    let mut i: usize = 0;
    while i < v.len()
        invariant
            i <= v@.len(),
            r@ == v@.take(i as int),
        decreases v@.len() - i,
    {
        r.push(v[i]);
        assert(v@.take(i + 1) =~= v@.take(i as int).push(v@[i as int]));
        i = i + 1;
    }
    assert(v@.take(i as int) =~= v@);
    r
}

fn ids_equal(a: &Vec<u128>, b: &Vec<u128>) -> (r: bool)
    ensures
        r == (a@ == b@),
{
    if a.len() != b.len() {
        return false;
    }
    let mut i: usize = 0;
    while i < a.len()
        invariant
            i <= a@.len(),
            a@.len() == b@.len(),
            forall|k: int| 0 <= k < i ==> a@[k] == b@[k],
        decreases a@.len() - i,
    {
        if a[i] != b[i] {
            return false;
        }
        i = i + 1;
    }
    assert(a@ =~= b@);
    true
}

impl EnvironmentDefinition {
    /// A copy of the definition.
    pub fn duplicate(&self) -> (c: EnvironmentDefinition)
        ensures
            c@ == self@,
    {
        let mut layers: Vec<EnvironmentLayer> = Vec::new();
        let mut i: usize = 0;
        while i < self.layers.len()
            invariant
                i <= self.layers@.len(),
                lviews(layers@) =~= lviews(self.layers@).take(i as int),
            decreases self.layers@.len() - i,
        {
            layers.push(copy_layer(&self.layers[i]));
            assert(lviews(self.layers@).take(i + 1) =~= lviews(self.layers@).take(i as int).push(
                self.layers@[i as int]@,
            ));
            i = i + 1;
        }
        assert(lviews(self.layers@).take(i as int) =~= lviews(self.layers@));
        EnvironmentDefinition {
            space: self.space,
            revision: self.revision,
            cell_size: self.cell_size,
            mask_resolution: self.mask_resolution,
            surfaces: copy_ids(&self.surfaces),
            layers,
        }
    }

    /// Whether two definitions are equal in every field.
    pub fn same_as(&self, other: &EnvironmentDefinition) -> (r: bool)
        ensures
            r == (self@ == other@),
    {
        if self.space != other.space || self.revision != other.revision || self.cell_size != other.cell_size
            || self.mask_resolution != other.mask_resolution || !ids_equal(&self.surfaces, &other.surfaces)
            || self.layers.len() != other.layers.len() {
            assert(self@.layers.len() != other@.layers.len() || self@ != other@);
            return false;
        }
        let mut i: usize = 0;
        while i < self.layers.len()
            invariant
                i <= self.layers@.len(),
                self.layers@.len() == other.layers@.len(),
                forall|k: int| 0 <= k < i ==> self@.layers[k] == other@.layers[k],
            decreases self.layers@.len() - i,
        {
            let a = &self.layers[i];
            let b = &other.layers[i];
            if !(a.id == b.id && a.revision == b.revision && a.name == b.name && bytes_equal(&a.settings, &b.settings)) {
                assert(self@.layers[i as int] != other@.layers[i as int]);
                return false;
            }
            i = i + 1;
        }
        assert(self@.layers =~= other@.layers);
        true
    }
}

/// The working set of environment definitions and of the shared preset library.
pub struct DefinitionWorkingSet {
    entries: Vec<DefinitionEntry>,
    presets: Option<PresetEntry>,
    revision: u64,
    plants_loaded: bool,
}

impl View for DefinitionWorkingSet {
    type V = DefinitionsView;

    closed spec fn view(&self) -> DefinitionsView {
        DefinitionsView {
            entries: self.entries@.map_values(|e: DefinitionEntry| dev(e)),
            presets: opev(self.presets),
            revision: self.revision,
            plants_loaded: self.plants_loaded,
        }
    }
}

impl DefinitionWorkingSet {
    /// The internal invariant: one entry per space, by ascending space.
    pub open spec fn wf(&self) -> bool {
        spaces_ascending(self@.entries)
    }

    proof fn lemma_view_index(&self, i: int)
        requires
            0 <= i < self.entries@.len(),
        ensures
            self@.entries[i] == dev(self.entries@[i]),
            self@.entries.len() == self.entries@.len(),
    {
    }

    /// An empty working set: nothing loaded yet.
    pub fn new() -> (s: Self)
        ensures
            s.wf(),
            s@.entries.len() == 0,
            s@.presets is None,
            s@.revision == 0,
            !s@.plants_loaded,
    {
        let s = DefinitionWorkingSet { entries: Vec::new(), presets: None, revision: 0, plants_loaded: false };
        assert(s@.entries =~= Seq::<DefEntryView>::empty());
        s
    }

    fn position(&self, space: WorldSpaceId) -> (r: Option<usize>)
        ensures
            match r {
                Some(i) => i < self@.entries.len() && space_of(self@.entries[i as int]) == space,
                None => !has_space(self@.entries, space),
            },
    {
        let mut i: usize = 0;
        while i < self.entries.len()
            invariant
                i <= self.entries@.len(),
                forall|k: int| 0 <= k < i ==> space_of(#[trigger] self@.entries[k]) != space,
            decreases self.entries@.len() - i,
        {
            proof {
                self.lemma_view_index(i as int);
            }
            if self.entries[i].current.space == space {
                return Some(i);
            }
            i = i + 1;
        }
        None
    }

    /// The local definition of a space, if it is loaded.
    pub fn definition(&self, space: WorldSpaceId) -> (r: Option<&EnvironmentDefinition>)
        requires
            self.wf(),
        ensures
            match r {
                Some(d) => has_space(self@.entries, space) && d@ == self@.entries[space_index(
                    self@.entries,
                    space,
                )].current,
                None => !has_space(self@.entries, space),
            },
    {
        match self.position(space) {
            Some(i) => {
                proof {
                    self.lemma_view_index(i as int);
                    lemma_space_index(self@.entries, i as int);
                }
                Some(&self.entries[i].current)
            },
            None => None,
        }
    }

    /// The local definitions, by ascending space.
    pub fn definitions(&self) -> (r: Vec<EnvironmentDefinition>)
        ensures
            r@.len() == self@.entries.len(),
            forall|i: int| 0 <= i < r@.len() ==> (#[trigger] r@[i])@ == self@.entries[i].current,
    {
        let mut r: Vec<EnvironmentDefinition> = Vec::new();
        let mut i: usize = 0;
        while i < self.entries.len()
            invariant
                i <= self.entries@.len(),
                r@.len() == i,
                forall|k: int| 0 <= k < i ==> (#[trigger] r@[k])@ == self@.entries[k].current,
            decreases self.entries@.len() - i,
        {
            proof {
                self.lemma_view_index(i as int);
            }
            r.push(self.entries[i].current.duplicate());
            i = i + 1;
        }
        r
    }

    /// The definition edit revision: it moves whenever a definition or the library changes.
    pub fn edit_revision(&self) -> (r: u64)
        ensures
            r == self@.revision,
    {
        self.revision
    }

    /// Whether the plant catalog that validation needs is loaded.
    pub fn plants_loaded(&self) -> (r: bool)
        ensures
            r == self@.plants_loaded,
    {
        self.plants_loaded
    }

    fn count(&self, which: u8) -> (n: usize)
        ensures
            n == count_entries(
                self@.entries,
                if which == 0 {
                    |e: DefEntryView| def_dirty(e)
                } else {
                    |e: DefEntryView| e.state is Conflict
                },
            ),
    {
        let ghost f = if which == 0 {
            |e: DefEntryView| def_dirty(e)
        } else {
            |e: DefEntryView| e.state is Conflict
        };
        let mut n: usize = 0;
        let mut i: usize = 0;
        while i < self.entries.len()
            invariant
                i <= self.entries@.len(),
                f == (if which == 0 {
                    |e: DefEntryView| def_dirty(e)
                } else {
                    |e: DefEntryView| e.state is Conflict
                }),
                n == count_entries(self@.entries.take(i as int), f),
                n <= i,
            decreases self.entries@.len() - i,
        {
            proof {
                self.lemma_view_index(i as int);
                assert(self@.entries.take(i + 1).drop_last() =~= self@.entries.take(i as int));
            }
            let e = &self.entries[i];
            let hit = if which == 0 {
                !e.base.same_as(&e.current)
            } else {
                match e.state {
                    DefinitionSaveState::Conflict(_) => true,
                    _ => false,
                }
            };
            if hit {
                n = n + 1;
            }
            i = i + 1;
        }
        assert(self@.entries.take(i as int) =~= self@.entries);
        n
    }

    /// The number of dirty definitions, the library counting as one (saturating).
    pub fn dirty_count(&self) -> (n: usize)
        ensures
            n == capped(dirty_total(self@) as int),
    {
        let n = self.count(0);
        let extra: usize = match &self.presets {
            Some(p) => if p.base.same_as(&p.current) {
                0
            } else {
                1
            },
            None => 0,
        };
        proof {
            lemma_count_bound(self@.entries, |e: DefEntryView| def_dirty(e));
        }
        capped_add(n, extra)
    }

    /// The number of conflicts, the library counting as one (saturating).
    pub fn conflict_count(&self) -> (n: usize)
        ensures
            n == capped(conflict_total(self@) as int),
    {
        let n = self.count(1);
        let extra: usize = match &self.presets {
            Some(p) => match p.state {
                DefinitionSaveState::Conflict(_) => 1,
                _ => 0,
            },
            None => 0,
        };
        proof {
            lemma_count_bound(self@.entries, |e: DefEntryView| e.state is Conflict);
        }
        capped_add(n, extra)
    }

    /// Whether a save of a definition or of the library is in flight.
    pub fn saving(&self) -> (r: bool)
        ensures
            r == definitions_saving(self@),
    {
        if let Some(p) = &self.presets {
            if let DefinitionSaveState::Saving(_) = p.state {
                return true;
            }
        }
        let mut i: usize = 0;
        while i < self.entries.len()
            invariant
                i <= self.entries@.len(),
                !library_saving(self@.presets),
                forall|k: int| 0 <= k < i ==> !((#[trigger] self@.entries[k]).state is Saving),
            decreases self.entries@.len() - i,
        {
            proof {
                self.lemma_view_index(i as int);
            }
            if let DefinitionSaveState::Saving(_) = self.entries[i].state {
                assert(self@.entries[i as int].state is Saving);
                return true;
            }
            i = i + 1;
        }
        false
    }

    /// The status line: the library's report first, then that of the first space with one.
    pub fn status(&self) -> (r: Option<String>)
        ensures
            match r {
                Some(m) => definitions_status(self@) == Some(m@),
                None => definitions_status(self@) is None,
            },
    {
        if let Some(p) = &self.presets {
            match &p.state {
                DefinitionSaveState::Conflict(_) => {
                    return Some(
                        String::from_str(
                            "Shared presets changed in the database; local edits are retained. Resolve the conflict.",
                        ),
                    );
                },
                DefinitionSaveState::Failed(e) => {
                    let mut m = String::from_str("Preset save failed: ");
                    m.append(e.as_str());
                    return Some(m);
                },
                _ => {},
            }
        }
        let mut i: usize = 0;
        assert(self@.entries.skip(0) =~= self@.entries);
        while i < self.entries.len()
            invariant
                i <= self.entries@.len(),
                library_message(self@.presets) is None,
                first_definition_message(self@.entries) == first_definition_message(
                    self@.entries.skip(i as int),
                ),
            decreases self.entries@.len() - i,
        {
            proof {
                self.lemma_view_index(i as int);
                assert(self@.entries.skip(i as int).drop_first() =~= self@.entries.skip(i + 1));
                assert(self@.entries.skip(i as int)[0] == self@.entries[i as int]);
            }
            match &self.entries[i].state {
                DefinitionSaveState::Failed(e) => {
                    let mut m = String::from_str("Environment save failed: ");
                    m.append(e.as_str());
                    return Some(m);
                },
                DefinitionSaveState::Conflict(_) => {
                    return Some(
                        String::from_str(
                            "The layer definitions changed in the database. Resolve the conflict before continuing.",
                        ),
                    );
                },
                _ => {},
            }
            i = i + 1;
        }
        None
    }

    /// Recovery snapshots of the dirty definitions, by ascending space.
    pub fn dirty_snapshots(&self) -> (r: Vec<DirtyDefinitionSnapshot>)
        ensures
            r@.map_values(|d: DirtyDefinitionSnapshot| (d.base@, d.current@)) == dirty_pairs(self@.entries),
    {
        let mut r: Vec<DirtyDefinitionSnapshot> = Vec::new();
        let mut i: usize = 0;
        while i < self.entries.len()
            invariant
                i <= self.entries@.len(),
                r@.map_values(|d: DirtyDefinitionSnapshot| (d.base@, d.current@)) == dirty_pairs(
                    self@.entries.take(i as int),
                ),
            decreases self.entries@.len() - i,
        {
            proof {
                self.lemma_view_index(i as int);
                assert(self@.entries.take(i + 1).drop_last() =~= self@.entries.take(i as int));
            }
            let e = &self.entries[i];
            if !e.base.same_as(&e.current) {
                r.push(DirtyDefinitionSnapshot { base: e.base.duplicate(), current: e.current.duplicate() });
                assert(r@.map_values(|d: DirtyDefinitionSnapshot| (d.base@, d.current@)) =~= dirty_pairs(
                    self@.entries.take(i as int),
                ).push((e.base@, e.current@)));
            }
            i = i + 1;
        }
        assert(self@.entries.take(i as int) =~= self@.entries);
        r
    }

    /// The local library, once it is loaded.
    pub fn presets(&self) -> (r: Option<&PresetLibrary>)
        ensures
            match r {
                Some(l) => self@.presets matches Some(p) && l@ == p.current,
                None => self@.presets is None,
            },
    {
        match &self.presets {
            Some(p) => Some(&p.current),
            None => None,
        }
    }

    /// The revision of the library's checkpoint, or zero before it is loaded.
    pub fn preset_base_revision(&self) -> (r: u64)
        ensures
            r == match self@.presets {
                Some(p) => p.base.revision,
                None => 0,
            },
    {
        match &self.presets {
            Some(p) => p.base.revision,
            None => 0,
        }
    }

    /// The library a save writes: the local one, when it differs from the checkpoint.
    pub fn preset_write(&self) -> (r: Option<PresetLibrary>)
        ensures
            match r {
                Some(l) => library_dirty(self@.presets) && l@ == self@.presets->Some_0.current,
                None => !library_dirty(self@.presets),
            },
    {
        match &self.presets {
            Some(p) => if p.base.same_as(&p.current) {
                None
            } else {
                Some(p.current.duplicate())
            },
            None => None,
        }
    }

    /// A recovery snapshot of the library, when it is dirty.
    pub fn dirty_preset_snapshot(&self) -> (r: Option<DirtyPresetSnapshot>)
        ensures
            match r {
                Some(s) => library_dirty(self@.presets) && s.base@ == self@.presets->Some_0.base
                    && s.current@ == self@.presets->Some_0.current,
                None => !library_dirty(self@.presets),
            },
    {
        match &self.presets {
            Some(p) => if p.base.same_as(&p.current) {
                None
            } else {
                Some(DirtyPresetSnapshot { base: p.base.duplicate(), current: p.current.duplicate() })
            },
            None => None,
        }
    }
}

/// The checkpoint and local value of each dirty entry, in order.
pub open spec fn dirty_pairs(s: Seq<DefEntryView>) -> Seq<(DefinitionView, DefinitionView)>
    decreases s.len(),
{
    if s.len() == 0 {
        Seq::empty()
    } else if def_dirty(s.last()) {
        dirty_pairs(s.drop_last()).push((s.last().base, s.last().current))
    } else {
        dirty_pairs(s.drop_last())
    }
}

proof fn lemma_count_bound(s: Seq<DefEntryView>, f: spec_fn(DefEntryView) -> bool)
    ensures
        count_entries(s, f) <= s.len(),
    decreases s.len(),
{
    if s.len() > 0 {
        lemma_count_bound(s.drop_last(), f);
    }
}

proof fn lemma_space_index(s: Seq<DefEntryView>, i: int)
    requires
        spaces_ascending(s),
        0 <= i < s.len(),
    ensures
        has_space(s, space_of(s[i])),
        space_index(s, space_of(s[i])) == i,
{
    let j = space_index(s, space_of(s[i]));
    assert(0 <= j < s.len() && space_of(s[j]) == space_of(s[i]));
    if j < i {
        assert(space_of(s[j]).0 < space_of(s[i]).0);
    } else if j > i {
        assert(space_of(s[i]).0 < space_of(s[j]).0);
    }
}

/// The bytes of a text's UTF-8 encoding.
pub open spec fn text_bytes(t: Seq<char>) -> usize {
    vstd::utf8::encode_utf8(t).len() as usize
}

/// The bytes counted for a layer: its framing, name and settings.
pub open spec fn layer_bytes(l: LayerView) -> int {
    FRAME_BYTES + text_bytes(l.name) + l.settings.len()
}

/// The bytes counted for layers.
pub open spec fn layers_bytes(s: Seq<LayerView>) -> int
    decreases s.len(),
{
    if s.len() == 0 {
        0
    } else {
        layers_bytes(s.drop_last()) + layer_bytes(s.last())
    }
}

/// The bytes counted for a definition: its framing, surfaces and layers.
pub open spec fn definition_bytes(d: DefinitionView) -> int {
    FRAME_BYTES + 16 * d.surfaces.len() + layers_bytes(d.layers)
}

/// The bytes counted for a preset: its framing, name and kind.
pub open spec fn preset_bytes(p: PresetView) -> int {
    FRAME_BYTES + text_bytes(p.name) + p.kind.len()
}

/// The bytes counted for presets.
pub open spec fn presets_bytes(s: Seq<PresetView>) -> int
    decreases s.len(),
{
    if s.len() == 0 {
        0
    } else {
        presets_bytes(s.drop_last()) + preset_bytes(s.last())
    }
}

/// The bytes counted for a library: its framing and presets.
pub open spec fn library_bytes(l: LibraryView) -> int {
    FRAME_BYTES + presets_bytes(l.presets)
}

proof fn lemma_capped_step(a: int, b: int)
    requires
        a >= 0,
        b >= 0,
    ensures
        capped(capped(a) + b) == capped(a + b),
{
}

fn text_size(t: &String) -> (n: usize)
    ensures
        n == text_bytes(t@),
{
    t.as_str().len()
}

/// The bytes counted for a definition, saturating.
pub fn definition_size(d: &EnvironmentDefinition) -> (n: usize)
    ensures
        n == capped(definition_bytes(d@)),
        definition_bytes(d@) >= 0,
{
    let ghost ls = lviews(d.layers@);
    let mut acc: usize = 0;
    let mut i: usize = 0;
    while i < d.layers.len()
        invariant
            i <= d.layers@.len(),
            ls == lviews(d.layers@),
            acc == capped(layers_bytes(ls.take(i as int))),
            layers_bytes(ls.take(i as int)) >= 0,
        decreases d.layers@.len() - i,
    {
        let l = &d.layers[i];
        let one = capped_add(capped_add(FRAME_BYTES, text_size(&l.name)), l.settings.len());
        proof {
            assert(ls.take(i + 1).drop_last() =~= ls.take(i as int));
            assert(ls.take(i + 1).last() == l@);
            lemma_capped_step(FRAME_BYTES + text_bytes(l.name@), l.settings@.len() as int);
            lemma_capped_step(layers_bytes(ls.take(i as int)), layer_bytes(l@));
            assert(one == capped(layer_bytes(l@)));
            lemma_capped_step(layer_bytes(l@), layers_bytes(ls.take(i as int)));
        }
        acc = capped_add(acc, one);
        proof {
            assert(capped(capped(layers_bytes(ls.take(i as int))) + capped(layer_bytes(l@))) == capped(
                layers_bytes(ls.take(i as int)) + layer_bytes(l@),
            )) by {
                lemma_capped_sum(layers_bytes(ls.take(i as int)), layer_bytes(l@));
            }
        }
        i = i + 1;
    }
    assert(ls.take(i as int) =~= ls);
    let surfaces = capped_mul(16, d.surfaces.len());
    let head = capped_add(FRAME_BYTES, surfaces);
    proof {
        lemma_capped_sum(FRAME_BYTES as int, (16 * d.surfaces@.len()) as int);
        lemma_capped_sum(FRAME_BYTES + 16 * d.surfaces@.len(), layers_bytes(ls));
    }
    capped_add(head, acc)
}

pub proof fn lemma_capped_sum(a: int, b: int)
    requires
        a >= 0,
        b >= 0,
    ensures
        capped(capped(a) + capped(b)) == capped(a + b),
{
}

/// The bytes counted for a library, saturating.
pub fn library_size(l: &PresetLibrary) -> (n: usize)
    ensures
        n == capped(library_bytes(l@)),
        library_bytes(l@) >= 0,
{
    let ghost ps = pviews(l.presets@);
    let mut acc: usize = 0;
    let mut i: usize = 0;
    while i < l.presets.len()
        invariant
            i <= l.presets@.len(),
            ps == pviews(l.presets@),
            acc == capped(presets_bytes(ps.take(i as int))),
            presets_bytes(ps.take(i as int)) >= 0,
        decreases l.presets@.len() - i,
    {
        let p = &l.presets[i];
        let one = capped_add(capped_add(FRAME_BYTES, text_size(&p.name)), p.kind.len());
        proof {
            assert(ps.take(i + 1).drop_last() =~= ps.take(i as int));
            assert(ps.take(i + 1).last() == p@);
            lemma_capped_step(FRAME_BYTES + text_bytes(p.name@), p.kind@.len() as int);
            lemma_capped_sum(presets_bytes(ps.take(i as int)), preset_bytes(p@));
        }
        acc = capped_add(acc, one);
        i = i + 1;
    }
    assert(ps.take(i as int) =~= ps);
    proof {
        lemma_capped_sum(FRAME_BYTES as int, presets_bytes(ps));
    }
    capped_add(FRAME_BYTES, acc)
}

/// Every layer name fits its byte limit.
pub open spec fn names_fit(d: DefinitionView) -> bool {
    forall|i: int| 0 <= i < d.layers.len() ==> text_bytes(#[trigger] d.layers[i].name) <= MAX_LAYER_NAME_BYTES
}

fn layer_names_fit(d: &EnvironmentDefinition) -> (r: bool)
    ensures
        r == names_fit(d@),
{
    let mut i: usize = 0;
    while i < d.layers.len()
        invariant
            i <= d.layers@.len(),
            forall|k: int| 0 <= k < i ==> text_bytes(#[trigger] d@.layers[k].name) <= MAX_LAYER_NAME_BYTES,
        decreases d.layers@.len() - i,
    {
        assert(d@.layers[i as int] == d.layers@[i as int]@);
        if text_size(&d.layers[i].name) > MAX_LAYER_NAME_BYTES {
            assert(!(text_bytes(d@.layers[i as int].name) <= MAX_LAYER_NAME_BYTES));
            return false;
        }
        i = i + 1;
    }
    true
}

/// Two definitions are of one grid: cell size, mask resolution and terrain surfaces.
pub open spec fn same_grid(a: DefinitionView, b: DefinitionView) -> bool {
    a.cell_size == b.cell_size && a.mask_resolution == b.mask_resolution && a.surfaces == b.surfaces
}

fn grid_equal(a: &EnvironmentDefinition, b: &EnvironmentDefinition) -> (r: bool)
    ensures
        r == same_grid(a@, b@),
{
    a.cell_size == b.cell_size && a.mask_resolution == b.mask_resolution && ids_equal(&a.surfaces, &b.surfaces)
}

/// The revision a checkpoint gives a layer: that of its version there, or the first revision.
pub open spec fn layer_base_revision(base: Seq<LayerView>, id: LayerId) -> u64
    decreases base.len(),
{
    if base.len() == 0 {
        1
    } else if base[0].id == id {
        base[0].revision
    } else {
        layer_base_revision(base.drop_first(), id)
    }
}

/// A local definition as a save against the checkpoint expects it: the checkpoint's revision,
/// and each layer with the revision of its version there (a new layer gets the first).
pub open spec fn normalized_definition(d: DefinitionView, base: DefinitionView) -> DefinitionView {
    DefinitionView {
        revision: base.revision,
        layers: d.layers.map_values(
            |l: LayerView| LayerView { revision: layer_base_revision(base.layers, l.id), ..l },
        ),
        ..d
    }
}

fn layer_revision_in(base: &EnvironmentDefinition, id: LayerId) -> (r: u64)
    ensures
        r == layer_base_revision(base@.layers, id),
{
    let mut i: usize = 0;
    assert(base@.layers.skip(0) =~= base@.layers);
    while i < base.layers.len()
        invariant
            i <= base.layers@.len(),
            layer_base_revision(base@.layers, id) == layer_base_revision(base@.layers.skip(i as int), id),
        decreases base.layers@.len() - i,
    {
        assert(base@.layers.skip(i as int).drop_first() =~= base@.layers.skip(i + 1));
        assert(base@.layers.skip(i as int)[0] == base.layers@[i as int]@);
        if base.layers[i].id == id {
            return base.layers[i].revision;
        }
        i = i + 1;
    }
    1
}

/// A copy of the definition with the checkpoint's revisions.
pub fn normalize_revisions(d: &EnvironmentDefinition, base: &EnvironmentDefinition) -> (r: EnvironmentDefinition)
    ensures
        r@ == normalized_definition(d@, base@),
{
    let mut layers: Vec<EnvironmentLayer> = Vec::new();
    let mut i: usize = 0;
    let ghost goal = normalized_definition(d@, base@).layers;
    while i < d.layers.len()
        invariant
            i <= d.layers@.len(),
            goal == normalized_definition(d@, base@).layers,
            lviews(layers@) =~= goal.take(i as int),
        decreases d.layers@.len() - i,
    {
        let l = &d.layers[i];
        let revision = layer_revision_in(base, l.id);
        layers.push(EnvironmentLayer { id: l.id, revision, name: l.name.clone(), settings: copy_bytes(&l.settings) });
        assert(goal.take(i + 1) =~= goal.take(i as int).push(goal[i as int]));
        i = i + 1;
    }
    assert(goal.take(i as int) =~= goal);
    EnvironmentDefinition {
        space: d.space,
        revision: base.revision,
        cell_size: d.cell_size,
        mask_resolution: d.mask_resolution,
        surfaces: copy_ids(&d.surfaces),
        layers,
    }
}

/// The identities of a definition's layers.
pub open spec fn layer_ids(d: DefinitionView) -> Seq<LayerId> {
    d.layers.map_values(|l: LayerView| l.id)
}

/// Every painted cell of the definition's space holds only tiles of its layers with its
/// mask's sample count.
pub open spec fn coverage_fits(entries: Seq<EntryView>, d: DefinitionView) -> bool {
    forall|i: int|
        0 <= i < entries.len() && (#[trigger] entries[i]).current.space == d.space ==> forall|t: int|
            0 <= t < entries[i].current.tiles.len() ==> layer_ids(d).contains(
                (#[trigger] entries[i].current.tiles[t]).0,
            ) && entries[i].current.tiles[t].1.len() == d.mask_resolution as int * d.mask_resolution as int
}

fn fits_coverage(coverage: &CoverageWorkingSet, d: &EnvironmentDefinition) -> (r: bool)
    ensures
        r == coverage_fits(coverage@.entries, d@),
{
    let mut ids: Vec<LayerId> = Vec::new();
    let mut i: usize = 0;
    while i < d.layers.len()
        invariant
            i <= d.layers@.len(),
            ids@ =~= layer_ids(d@).take(i as int),
        decreases d.layers@.len() - i,
    {
        ids.push(d.layers[i].id);
        assert(layer_ids(d@).take(i + 1) =~= layer_ids(d@).take(i as int).push(d.layers@[i as int].id));
        i = i + 1;
    }
    assert(layer_ids(d@).take(i as int) =~= layer_ids(d@));
    let shape = CoverageDefinition { space: d.space, layers: ids, mask_resolution: d.mask_resolution, revision: d.revision };
    let r = coverage.fits(&shape);
    proof {
        assert(fits_everywhere(coverage@.entries, shape) == coverage_fits(coverage@.entries, d@)) by {
            if fits_everywhere(coverage@.entries, shape) {
                assert forall|k: int|
                    0 <= k < coverage@.entries.len() && (#[trigger] coverage@.entries[k]).current.space == d.space
                        implies forall|t: int|
                    0 <= t < coverage@.entries[k].current.tiles.len() ==> layer_ids(d@).contains(
                        (#[trigger] coverage@.entries[k].current.tiles[t]).0,
                    ) && coverage@.entries[k].current.tiles[t].1.len() == d.mask_resolution as int
                        * d.mask_resolution as int by {
                    assert(fits_definition(coverage@.entries[k].current.tiles, shape));
                }
            }
            if coverage_fits(coverage@.entries, d@) {
                assert forall|k: int|
                    0 <= k < coverage@.entries.len() && (#[trigger] coverage@.entries[k]).current.space
                        == shape.space implies fits_definition(coverage@.entries[k].current.tiles, shape) by {
                    let tiles = coverage@.entries[k].current.tiles;
                    assert forall|t: int| 0 <= t < tiles.len() implies shape.layers@.contains(
                        (#[trigger] tiles[t]).0,
                    ) && tiles[t].1.len() == shape.mask_resolution as int * shape.mask_resolution as int by {
                        assert(layer_ids(d@).contains(coverage@.entries[k].current.tiles[t].0));
                    }
                }
            }
        }
    }
    r
}

/// The verdicts that only the environment compiler can give on a library edit: the library
/// checked against the plant catalog, and the compile plans of every loaded definition (an
/// edited definition in its space's place) under the library, the first failure reported.
#[derive(Debug)]
pub struct LibraryChecks {
    pub catalog: Result<(), String>,
    pub plans: Result<(), String>,
}

/// The verdicts by value.
pub struct ChecksView {
    pub catalog: Result<(), Seq<char>>,
    pub plans: Result<(), Seq<char>>,
}

/// A verdict by value.
pub open spec fn verdict(r: Result<(), String>) -> Result<(), Seq<char>> {
    match r {
        Ok(()) => Ok(()),
        Err(e) => Err(e@),
    }
}

/// The verdicts by value.
pub open spec fn cv(c: LibraryChecks) -> ChecksView {
    ChecksView { catalog: verdict(c.catalog), plans: verdict(c.plans) }
}

/// Why a library edit is refused, if it is: it exceeds its byte limit, the plant catalog is
/// not loaded, or the compiler refuses the library or a definition under it.
pub open spec fn library_edit_error(w: DefinitionsView, library: LibraryView, checks: ChecksView) -> Option<
    Seq<char>,
> {
    if library_bytes(library) > MAX_LIBRARY_BYTES {
        Some("Preset library exceeds the editor's 1 MiB authoring limit"@)
    } else if !w.plants_loaded {
        Some("Plant assets are loading"@)
    } else if checks.catalog is Err {
        Some(checks.catalog->Err_0)
    } else if checks.plans is Err {
        Some(checks.plans->Err_0)
    } else {
        None
    }
}

/// Another save or conflict, or a brush gesture, blocks edits of definitions and presets.
pub open spec fn edits_blocked(w: DefinitionsView, c: CoverageView, others_blocked: bool) -> bool {
    others_blocked || definitions_saving(w) || conflict_total(w) > 0 || any_where(
        c.entries,
        |e: EntryView| is_saving(e),
    ) || any_where(c.entries, |e: EntryView| is_conflict(e)) || c.gesture_active
}

/// The library entry after installing an edited library: normalized against the checkpoint,
/// and idle again when it changed anything.
pub open spec fn installed_presets(p: PresetEntryView, library: LibraryView) -> PresetEntryView {
    let c = normalized_library(library, p.base);
    if c != p.current {
        PresetEntryView { current: c, state: StateView::Idle, ..p }
    } else {
        p
    }
}

/// Installing the library changes the local library.
pub open spec fn install_changes(p: PresetEntryView, library: LibraryView) -> bool {
    normalized_library(library, p.base) != p.current
}

/// Why a library edit is refused, if it is.
pub open spec fn preset_edit_error(
    w: DefinitionsView,
    c: CoverageView,
    library: LibraryView,
    checks: ChecksView,
    others_blocked: bool,
) -> Option<Seq<char>> {
    if w.presets is None {
        Some("Presets are still loading"@)
    } else if edits_blocked(w, c, others_blocked) {
        Some("Finish the stroke, save or conflict resolution before editing presets"@)
    } else {
        library_edit_error(w, library, checks)
    }
}

/// The bytes of the dirty definitions of the spaces other than one.
pub open spec fn other_dirty_bytes(s: Seq<DefEntryView>, space: WorldSpaceId) -> int
    decreases s.len(),
{
    if s.len() == 0 {
        0
    } else {
        other_dirty_bytes(s.drop_last(), space) + if space_of(s.last()) != space && def_dirty(s.last()) {
            definition_bytes(s.last().current)
        } else {
            0
        }
    }
}

/// The bytes the dirty definitions would take with the replacement installed.
pub open spec fn dirty_bytes_after(s: Seq<DefEntryView>, replacement: DefinitionView) -> int {
    let e = s[space_index(s, replacement.space)];
    let next = normalized_definition(replacement, e.base);
    other_dirty_bytes(s, replacement.space) + if next != e.base {
        definition_bytes(next)
    } else {
        0
    }
}

/// Why a definition edit is refused, if it is.
pub open spec fn environment_edit_error(
    w: DefinitionsView,
    c: CoverageView,
    replacement: DefinitionView,
    library: LibraryView,
    checks: ChecksView,
    others_blocked: bool,
) -> Option<Seq<char>> {
    if w.presets is None {
        Some("Presets are still loading"@)
    } else if edits_blocked(w, c, others_blocked) {
        Some("Finish the stroke or save before editing layers"@)
    } else if !has_space(w.entries, replacement.space) {
        Some("Environment is still loading"@)
    } else if !same_grid(w.entries[space_index(w.entries, replacement.space)].current, replacement) {
        Some("Layer editing cannot change the world grid or terrain pack"@)
    } else if !w.plants_loaded {
        Some("Vegetation assets are still loading"@)
    } else if library_edit_error(w, library, checks) is Some {
        library_edit_error(w, library, checks)
    } else if !names_fit(replacement) {
        Some("Names must fit in 256 bytes"@)
    } else if definition_bytes(replacement) > MAX_DEFINITION_BYTES {
        Some("Environment definition exceeds the size budget"@)
    } else if !coverage_fits(c.entries, replacement) {
        Some("Undo or erase this layer's local paint before removing the layer"@)
    } else if dirty_bytes_after(w.entries, replacement) > MAX_DIRTY_DEFINITION_BYTES {
        Some("Save the current layer edits before editing more definitions (4 MiB limit)"@)
    } else {
        None
    }
}

/// Installing the replacement changes the local definition of its space.
pub open spec fn definition_changes(s: Seq<DefEntryView>, replacement: DefinitionView) -> bool {
    let e = s[space_index(s, replacement.space)];
    normalized_definition(replacement, e.base) != e.current
}

/// The entries after installing the replacement, normalized against its checkpoint.
pub open spec fn installed_definition(s: Seq<DefEntryView>, replacement: DefinitionView) -> Seq<DefEntryView> {
    let i = space_index(s, replacement.space);
    if definition_changes(s, replacement) {
        s.update(
            i,
            DefEntryView { current: normalized_definition(replacement, s[i].base), state: StateView::Idle, ..s[i] },
        )
    } else {
        s
    }
}

/// The working set after an accepted definition edit: the library installed first, then the
/// definition, each moving the revision when it changes something.
pub open spec fn environment_edited(w: DefinitionsView, replacement: DefinitionView, library: LibraryView) -> DefinitionsView {
    let p = w.presets->Some_0;
    DefinitionsView {
        entries: installed_definition(w.entries, replacement),
        presets: Some(installed_presets(p, library)),
        revision: bump_if(
            definition_changes(w.entries, replacement),
            bump_if(install_changes(p, library), w.revision),
        ),
        ..w
    }
}

/// The entries with one put under its space: it replaces the entry of that space, or is
/// inserted where the spaces stay ascending.
pub open spec fn put_definition(s: Seq<DefEntryView>, e: DefEntryView) -> Seq<DefEntryView> {
    if has_space(s, space_of(e)) {
        s.update(space_index(s, space_of(e)), e)
    } else {
        s.insert(choose|p: int| slot_for(s, space_of(e), p), e)
    }
}

/// Inserting at `p` keeps the spaces ascending.
pub open spec fn slot_for(s: Seq<DefEntryView>, space: WorldSpaceId, p: int) -> bool {
    0 <= p <= s.len() && (forall|k: int| 0 <= k < p ==> space_of(#[trigger] s[k]).0 < space.0) && (forall|k: int|
        p <= k < s.len() ==> space_of(#[trigger] s[k]).0 > space.0)
}

proof fn lemma_slot_unique(s: Seq<DefEntryView>, space: WorldSpaceId, p: int, q: int)
    requires
        slot_for(s, space, p),
        slot_for(s, space, q),
    ensures
        p == q,
{
    if p < q {
        assert(space_of(s[p]).0 < space.0);
        assert(space_of(s[p]).0 > space.0);
    } else if q < p {
        assert(space_of(s[q]).0 < space.0);
        assert(space_of(s[q]).0 > space.0);
    }
}

impl DefinitionWorkingSet {
    fn bump(&mut self, coverage: &mut CoverageWorkingSet)
        ensures
            final(self)@ == (DefinitionsView { revision: bumped(old(self)@.revision), ..old(self)@ }),
            final(coverage)@ == (CoverageView { edit_revision: bumped(old(coverage)@.edit_revision), ..old(coverage)@ }),
            final(coverage).wf() == old(coverage).wf(),
    {
        let next = self.revision.wrapping_add(1);
        self.revision = if next < 1 {
            1
        } else {
            next
        };
        coverage.touch();
    }

    fn put_entry(&mut self, e: DefinitionEntry)
        requires
            old(self).wf(),
        ensures
            final(self).wf(),
            final(self)@ == (DefinitionsView { entries: put_definition(old(self)@.entries, dev(e)), ..old(self)@ }),
    {
        let ghost s = self@.entries;
        let space = e.current.space;
        let mut j: usize = 0;
        while j < self.entries.len() && self.entries[j].current.space.0 < space.0
            invariant
                j <= self.entries@.len(),
                s == self@.entries,
                forall|k: int| 0 <= k < j ==> space_of(#[trigger] s[k]).0 < space.0,
            decreases self.entries@.len() - j,
        {
            proof {
                self.lemma_view_index(j as int);
            }
            j = j + 1;
        }
        proof {
            if j < s.len() {
                self.lemma_view_index(j as int);
            }
        }
        if j < self.entries.len() && self.entries[j].current.space == space {
            proof {
                lemma_space_index(s, j as int);
            }
            self.entries.set(j, e);
            proof {
                assert(self@.entries =~= s.update(j as int, dev(e)));
            }
        } else {
            proof {
                assert(slot_for(s, space, j as int)) by {
                    assert forall|k: int| j <= k < s.len() implies space_of(#[trigger] s[k]).0 > space.0 by {
                        if k > j {
                            assert(space_of(s[j as int]).0 < space_of(s[k]).0);
                        }
                        assert(space_of(s[j as int]) != space);
                    }
                }
                assert(!has_space(s, space)) by {
                    if has_space(s, space) {
                        let k = choose|k: int| 0 <= k < s.len() && space_of(s[k]) == space;
                        assert(space_of(s[k]).0 == space.0);
                    }
                }
                let p = choose|p: int| slot_for(s, space, p);
                lemma_slot_unique(s, space, p, j as int);
            }
            self.entries.insert(j, e);
            proof {
                assert(self@.entries =~= s.insert(j as int, dev(e)));
            }
        }
        proof {
            let t = self@.entries;
            assert forall|a: int, b: int| 0 <= a < b < t.len() implies space_of(t[a]).0 < space_of(t[b]).0 by {
                if t =~= s.update(j as int, dev(e)) {
                } else {
                    if b < j {
                        assert(t[a] == s[a] && t[b] == s[b]);
                    } else if b == j {
                        assert(t[a] == s[a]);
                    } else if a < j {
                        assert(t[a] == s[a] && t[b] == s[b - 1]);
                    } else if a == j {
                        assert(t[b] == s[b - 1]);
                    } else {
                        assert(t[a] == s[a - 1] && t[b] == s[b - 1]);
                    }
                }
            }
        }
    }
}

/// The coverage working set with its edit revision moved, when something changed.
pub open spec fn touch_if(changed: bool, c: CoverageView) -> CoverageView {
    CoverageView { edit_revision: bump_if(changed, c.edit_revision), ..c }
}

/// A recovered library snapshot is taken back when the compiler accepts it against the plant
/// catalog, it differs from its checkpoint, and it fits its byte limit.
pub open spec fn preset_snapshot_restorable(
    base: LibraryView,
    current: LibraryView,
    catalog: Result<(), Seq<char>>,
) -> bool {
    catalog is Ok && base != current && library_bytes(current) <= MAX_LIBRARY_BYTES
}

/// A recovered definition snapshot is taken back when its checkpoint and local value are of
/// one space, cell size and mask resolution, they differ, the library is loaded, and the
/// local value passes validation: names within their limit, a compile plan, and its byte
/// limit.
pub open spec fn definition_snapshot_restorable(
    w: DefinitionsView,
    base: DefinitionView,
    current: DefinitionView,
    plan: Result<(), Seq<char>>,
) -> bool {
    &&& base.space == current.space
    &&& base.cell_size == current.cell_size
    &&& base.mask_resolution == current.mask_resolution
    &&& base != current
    &&& w.presets is Some
    &&& names_fit(current)
    &&& plan is Ok
    &&& definition_bytes(current) <= MAX_DEFINITION_BYTES
}

impl DefinitionWorkingSet {
    /// Loads the library when none is held yet.
    pub fn initialize_presets(&mut self, library: &PresetLibrary, coverage: &mut CoverageWorkingSet)
        requires
            old(self).wf(),
        ensures
            final(self).wf(),
            old(self)@.presets is Some ==> final(self)@ == old(self)@ && final(coverage)@ == old(coverage)@,
            old(self)@.presets is None ==> final(self)@ == (DefinitionsView {
                presets: Some(PresetEntryView { base: library@, current: library@, state: StateView::Idle }),
                revision: bumped(old(self)@.revision),
                ..old(self)@
            }) && final(coverage)@ == touch_if(true, old(coverage)@),
            final(coverage).wf() == old(coverage).wf(),
    {
        if self.presets.is_none() {
            self.presets = Some(
                PresetEntry { base: library.duplicate(), current: library.duplicate(), state: DefinitionSaveState::Idle },
            );
            self.bump(coverage);
        }
    }

    /// Takes back a recovered library snapshot; reports whether it was taken.
    pub fn restore_preset_snapshot(
        &mut self,
        snapshot: DirtyPresetSnapshot,
        catalog: Result<(), String>,
        coverage: &mut CoverageWorkingSet,
    ) -> (restored: bool)
        requires
            old(self).wf(),
        ensures
            final(self).wf(),
            final(coverage).wf() == old(coverage).wf(),
            restored == preset_snapshot_restorable(snapshot.base@, snapshot.current@, verdict(catalog)),
            restored ==> final(self)@ == (DefinitionsView {
                presets: Some(PresetEntryView { base: snapshot.base@, current: snapshot.current@, state: StateView::Idle }),
                revision: bumped(old(self)@.revision),
                plants_loaded: true,
                ..old(self)@
            }) && final(coverage)@ == touch_if(true, old(coverage)@),
            !restored ==> final(self)@ == old(self)@ && final(coverage)@ == old(coverage)@,
    {
        if catalog.is_err() || snapshot.base.same_as(&snapshot.current)
            || library_size(&snapshot.current) > MAX_LIBRARY_BYTES {
            return false;
        }
        let DirtyPresetSnapshot { base, current } = snapshot;
        self.presets = Some(PresetEntry { base, current, state: DefinitionSaveState::Idle });
        self.plants_loaded = true;
        self.bump(coverage);
        true
    }

    /// Takes back a recovered definition snapshot under its space; reports whether it was
    /// taken. `plan` is the compiler's verdict on the local value.
    pub fn restore_definition_snapshot(
        &mut self,
        snapshot: DirtyDefinitionSnapshot,
        plan: Result<(), String>,
        coverage: &mut CoverageWorkingSet,
    ) -> (restored: bool)
        requires
            old(self).wf(),
        ensures
            final(self).wf(),
            final(coverage).wf() == old(coverage).wf(),
            restored == definition_snapshot_restorable(old(self)@, snapshot.base@, snapshot.current@, verdict(plan)),
            restored ==> final(self)@ == (DefinitionsView {
                entries: put_definition(
                    old(self)@.entries,
                    DefEntryView { base: snapshot.base@, current: snapshot.current@, state: StateView::Idle },
                ),
                revision: bumped(old(self)@.revision),
                plants_loaded: true,
                ..old(self)@
            }) && final(coverage)@ == touch_if(true, old(coverage)@),
            !restored ==> final(self)@ == old(self)@ && final(coverage)@ == old(coverage)@,
    {
        let b = &snapshot.base;
        let c = &snapshot.current;
        if b.space != c.space || b.cell_size != c.cell_size || b.mask_resolution != c.mask_resolution
            || b.same_as(c) || self.presets.is_none() || !layer_names_fit(c) || plan.is_err()
            || definition_size(c) > MAX_DEFINITION_BYTES {
            return false;
        }
        let DirtyDefinitionSnapshot { base, current } = snapshot;
        self.put_entry(DefinitionEntry { base, current, state: DefinitionSaveState::Idle });
        self.plants_loaded = true;
        self.bump(coverage);
        true
    }

    fn library_edit_check(&self, library: &PresetLibrary, checks: &LibraryChecks) -> (r: Result<(), String>)
        ensures
            match r {
                Ok(_) => library_edit_error(self@, library@, cv(*checks)) is None,
                Err(e) => library_edit_error(self@, library@, cv(*checks)) == Some(e@),
            },
    {
        if library_size(library) > MAX_LIBRARY_BYTES {
            return Err(String::from_str("Preset library exceeds the editor's 1 MiB authoring limit"));
        }
        if !self.plants_loaded {
            return Err(String::from_str("Plant assets are loading"));
        }
        match &checks.catalog {
            Err(e) => Err(e.clone()),
            Ok(()) => match &checks.plans {
                Err(e) => Err(e.clone()),
                Ok(()) => Ok(()),
            },
        }
    }

    fn blocked(&self, others_blocked: bool, coverage: &CoverageWorkingSet) -> (r: bool)
        ensures
            r == edits_blocked(self@, coverage@, others_blocked),
    {
        others_blocked || self.saving() || self.conflict_count() > 0 || coverage.saving()
            || coverage.has_any_conflict() || coverage.gesture_active()
    }

    fn install_preset_edit(&mut self, library: &PresetLibrary, coverage: &mut CoverageWorkingSet)
        requires
            old(self).wf(),
            old(self)@.presets is Some,
        ensures
            final(self).wf(),
            final(coverage).wf() == old(coverage).wf(),
            final(self)@ == (DefinitionsView {
                presets: Some(installed_presets(old(self)@.presets->Some_0, library@)),
                revision: bump_if(install_changes(old(self)@.presets->Some_0, library@), old(self)@.revision),
                ..old(self)@
            }),
            final(coverage)@ == touch_if(install_changes(old(self)@.presets->Some_0, library@), old(coverage)@),
    {
        let mut entry = self.presets.take().unwrap();
        let mut current = library.duplicate();
        normalize(&mut current, &entry.base);
        let changed = !current.same_as(&entry.current);
        if changed {
            entry.current = current;
            entry.state = DefinitionSaveState::Idle;
        }
        self.presets = Some(entry);
        if changed {
            self.bump(coverage);
        }
    }

    /// Installs an edited library; refused (and nothing changed) while the library loads,
    /// while a save, conflict or gesture blocks edits, or when validation refuses it.
    /// `others_blocked` tells whether another domain of the transaction is saving or in
    /// conflict; `checks` are the compiler's verdicts on the library.
    pub fn apply_presets(
        &mut self,
        library: &PresetLibrary,
        checks: &LibraryChecks,
        others_blocked: bool,
        coverage: &mut CoverageWorkingSet,
    ) -> (r: Result<(), String>)
        requires
            old(self).wf(),
        ensures
            final(self).wf(),
            final(coverage).wf() == old(coverage).wf(),
            match r {
                Ok(_) => preset_edit_error(old(self)@, old(coverage)@, library@, cv(*checks), others_blocked) is None
                    && final(self)@ == (DefinitionsView {
                    presets: Some(installed_presets(old(self)@.presets->Some_0, library@)),
                    revision: bump_if(install_changes(old(self)@.presets->Some_0, library@), old(self)@.revision),
                    ..old(self)@
                }) && final(coverage)@ == touch_if(
                    install_changes(old(self)@.presets->Some_0, library@),
                    old(coverage)@,
                ),
                Err(e) => preset_edit_error(old(self)@, old(coverage)@, library@, cv(*checks), others_blocked)
                    == Some(e@) && final(self)@ == old(self)@ && final(coverage)@ == old(coverage)@,
            },
    {
        if self.presets.is_none() {
            return Err(String::from_str("Presets are still loading"));
        }
        if self.blocked(others_blocked, coverage) {
            return Err(String::from_str("Finish the stroke, save or conflict resolution before editing presets"));
        }
        match self.library_edit_check(library, checks) {
            Err(e) => {
                return Err(e);
            },
            Ok(()) => {},
        }
        self.install_preset_edit(library, coverage);
        Ok(())
    }

    fn other_dirty_size(&self, space: WorldSpaceId) -> (n: usize)
        ensures
            n == capped(other_dirty_bytes(self@.entries, space)),
            other_dirty_bytes(self@.entries, space) >= 0,
    {
        let mut acc: usize = 0;
        let mut i: usize = 0;
        while i < self.entries.len()
            invariant
                i <= self.entries@.len(),
                acc == capped(other_dirty_bytes(self@.entries.take(i as int), space)),
                other_dirty_bytes(self@.entries.take(i as int), space) >= 0,
            decreases self.entries@.len() - i,
        {
            proof {
                self.lemma_view_index(i as int);
                assert(self@.entries.take(i + 1).drop_last() =~= self@.entries.take(i as int));
                assert(self@.entries.take(i + 1).last() == self@.entries[i as int]);
            }
            let e = &self.entries[i];
            if e.current.space != space && !e.base.same_as(&e.current) {
                let one = definition_size(&e.current);
                proof {
                    lemma_capped_sum(
                        other_dirty_bytes(self@.entries.take(i as int), space),
                        definition_bytes(e.current@),
                    );
                }
                acc = capped_add(acc, one);
            }
            i = i + 1;
        }
        assert(self@.entries.take(i as int) =~= self@.entries);
        acc
    }

    fn set_current(&mut self, i: usize, current: EnvironmentDefinition)
        requires
            old(self).wf(),
            i < old(self)@.entries.len(),
            current.space == space_of(old(self)@.entries[i as int]),
        ensures
            final(self).wf(),
            final(self)@ == (DefinitionsView {
                entries: old(self)@.entries.update(
                    i as int,
                    DefEntryView { current: current@, state: StateView::Idle, ..old(self)@.entries[i as int] },
                ),
                ..old(self)@
            }),
    {
        proof {
            self.lemma_view_index(i as int);
        }
        let ghost s = self@.entries;
        let base = self.entries[i].base.duplicate();
        self.entries.set(i, DefinitionEntry { base, current, state: DefinitionSaveState::Idle });
        proof {
            assert(self@.entries =~= s.update(
                i as int,
                DefEntryView { current: current@, state: StateView::Idle, ..s[i as int] },
            ));
            let t = self@.entries;
            assert forall|a: int, b: int| 0 <= a < b < t.len() implies space_of(t[a]).0 < space_of(t[b]).0 by {
                assert(space_of(t[a]) == space_of(s[a]) && space_of(t[b]) == space_of(s[b]));
            }
        }
    }

    /// Installs an edited definition of a loaded space together with the library its layers
    /// use; refused (and nothing changed) while the library loads, while a save, conflict or
    /// gesture blocks edits, for an unloaded space, a changed grid, an unloaded plant catalog,
    /// a refused library, names or sizes over their limits, painted tiles that the new layers
    /// would not hold, or too many dirty definition bytes. `checks` are the compiler's verdicts
    /// on the library with the replacement in its space's place.
    pub fn apply_environment(
        &mut self,
        replacement: &EnvironmentDefinition,
        library: &PresetLibrary,
        checks: &LibraryChecks,
        others_blocked: bool,
        coverage: &mut CoverageWorkingSet,
    ) -> (r: Result<(), String>)
        requires
            old(self).wf(),
        ensures
            final(self).wf(),
            final(coverage).wf() == old(coverage).wf(),
            match r {
                Ok(_) => environment_edit_error(
                    old(self)@,
                    old(coverage)@,
                    replacement@,
                    library@,
                    cv(*checks),
                    others_blocked,
                ) is None && final(self)@ == environment_edited(old(self)@, replacement@, library@)
                    && final(coverage)@ == touch_if(
                    definition_changes(old(self)@.entries, replacement@),
                    touch_if(install_changes(old(self)@.presets->Some_0, library@), old(coverage)@),
                ),
                Err(e) => environment_edit_error(
                    old(self)@,
                    old(coverage)@,
                    replacement@,
                    library@,
                    cv(*checks),
                    others_blocked,
                ) == Some(e@) && final(self)@ == old(self)@ && final(coverage)@ == old(coverage)@,
            },
    {
        if self.presets.is_none() {
            return Err(String::from_str("Presets are still loading"));
        }
        if self.blocked(others_blocked, coverage) {
            return Err(String::from_str("Finish the stroke or save before editing layers"));
        }
        let i = match self.position(replacement.space) {
            None => {
                return Err(String::from_str("Environment is still loading"));
            },
            Some(i) => i,
        };
        proof {
            self.lemma_view_index(i as int);
            lemma_space_index(self@.entries, i as int);
        }
        if !grid_equal(&self.entries[i].current, replacement) {
            return Err(String::from_str("Layer editing cannot change the world grid or terrain pack"));
        }
        if !self.plants_loaded {
            return Err(String::from_str("Vegetation assets are still loading"));
        }
        match self.library_edit_check(library, checks) {
            Err(e) => {
                return Err(e);
            },
            Ok(()) => {},
        }
        if !layer_names_fit(replacement) {
            return Err(String::from_str("Names must fit in 256 bytes"));
        }
        if definition_size(replacement) > MAX_DEFINITION_BYTES {
            return Err(String::from_str("Environment definition exceeds the size budget"));
        }
        if !fits_coverage(coverage, replacement) {
            return Err(String::from_str("Undo or erase this layer's local paint before removing the layer"));
        }
        let current = normalize_revisions(replacement, &self.entries[i].base);
        let others = self.other_dirty_size(replacement.space);
        let own: usize = if !current.same_as(&self.entries[i].base) {
            definition_size(&current)
        } else {
            0
        };
        proof {
            let nb = normalized_definition(replacement@, self@.entries[i as int].base);
            lemma_definition_bytes_nonnegative(nb);
            lemma_capped_sum(
                other_dirty_bytes(self@.entries, replacement.space),
                if nb != self@.entries[i as int].base {
                    definition_bytes(nb)
                } else {
                    0
                },
            );
        }
        if capped_add(others, own) > MAX_DIRTY_DEFINITION_BYTES {
            return Err(
                String::from_str("Save the current layer edits before editing more definitions (4 MiB limit)"),
            );
        }
        let ghost w0 = self@;
        let ghost c0 = coverage@;
        self.install_preset_edit(library, coverage);
        proof {
            assert(self@.entries == w0.entries);
            self.lemma_view_index(i as int);
        }
        if !current.same_as(&self.entries[i].current) {
            self.set_current(i, current);
            self.bump(coverage);
        }
        proof {
            assert(self@.entries =~= installed_definition(w0.entries, replacement@));
        }
        Ok(())
    }
}

proof fn lemma_definition_bytes_nonnegative(d: DefinitionView)
    ensures
        definition_bytes(d) >= 0,
{
    lemma_layers_bytes_nonnegative(d.layers);
}

proof fn lemma_layers_bytes_nonnegative(s: Seq<LayerView>)
    ensures
        layers_bytes(s) >= 0,
    decreases s.len(),
{
    if s.len() > 0 {
        lemma_layers_bytes_nonnegative(s.drop_last());
    }
}

/// Definitions by value.
pub open spec fn dviews(s: Seq<EnvironmentDefinition>) -> Seq<DefinitionView> {
    s.map_values(|d: EnvironmentDefinition| d@)
}

/// Some painted cell of the space must stay though its area is no longer loaded.
pub open spec fn space_pinned_in(c: Seq<EntryView>, space: WorldSpaceId) -> bool {
    exists|i: int| 0 <= i < c.len() && (#[trigger] c[i]).current.space == space && is_pinned(c[i])
}

/// The library entry after the database's library is seen: loaded when none was held; an
/// idle entry whose checkpoint the database has passed adopts the new library, unless local
/// edits (of the library, of a definition, or painted cells that must stay) would be lost, in
/// which case the entry is in conflict with it.
pub open spec fn reconcile_preset_entry(
    p: Option<PresetEntryView>,
    saved: Option<LibraryView>,
    local_edits: bool,
) -> Option<PresetEntryView> {
    match saved {
        None => p,
        Some(l) => match p {
            None => Some(PresetEntryView { base: l, current: l, state: StateView::Idle }),
            Some(e) => if e.base != l && e.state is Idle {
                if e.base != e.current || local_edits {
                    Some(PresetEntryView { state: StateView::Conflict(Some(l)), ..e })
                } else {
                    Some(PresetEntryView { base: l, current: l, state: StateView::Idle })
                }
            } else {
                p
            },
        },
    }
}

/// Seeing the database's library changes the library entry.
pub open spec fn preset_reconcile_changes(p: Option<PresetEntryView>, saved: Option<LibraryView>) -> bool {
    match saved {
        None => false,
        Some(l) => match p {
            None => true,
            Some(e) => e.base != l && e.state is Idle,
        },
    }
}

/// The entries after the database's definition of a space is seen: a new space is loaded; an
/// idle entry whose checkpoint the database has passed adopts it, unless a local edit of the
/// definition or painted cells of the space that must stay would be lost, in which case the
/// entry is in conflict with it.
pub open spec fn reconcile_definition(s: Seq<DefEntryView>, d: DefinitionView, pinned: bool) -> Seq<DefEntryView> {
    if has_space(s, d.space) {
        let i = space_index(s, d.space);
        if s[i].state is Idle && s[i].base != d {
            if def_dirty(s[i]) || pinned {
                s.update(i, DefEntryView { state: StateView::Conflict(Some(d)), ..s[i] })
            } else {
                s.update(i, DefEntryView { base: d, current: d, state: StateView::Idle })
            }
        } else {
            s
        }
    } else {
        put_definition(s, DefEntryView { base: d, current: d, state: StateView::Idle })
    }
}

/// Seeing the database's definition changes the entries.
pub open spec fn definition_reconcile_changes(s: Seq<DefEntryView>, d: DefinitionView) -> bool {
    if has_space(s, d.space) {
        s[space_index(s, d.space)].state is Idle && s[space_index(s, d.space)].base != d
    } else {
        true
    }
}

/// The entries after each database definition is seen in turn.
pub open spec fn reconciled_definitions(s: Seq<DefEntryView>, defs: Seq<DefinitionView>, c: Seq<EntryView>) -> Seq<
    DefEntryView,
>
    decreases defs.len(),
{
    if defs.len() == 0 {
        s
    } else {
        reconcile_definition(
            reconciled_definitions(s, defs.drop_last(), c),
            defs.last(),
            space_pinned_in(c, defs.last().space),
        )
    }
}

/// Seeing the database definitions in turn changes some entry.
pub open spec fn definitions_reconcile_changes(s: Seq<DefEntryView>, defs: Seq<DefinitionView>, c: Seq<EntryView>) -> bool
    decreases defs.len(),
{
    if defs.len() == 0 {
        false
    } else {
        definitions_reconcile_changes(s, defs.drop_last(), c) || definition_reconcile_changes(
            reconciled_definitions(s, defs.drop_last(), c),
            defs.last(),
        )
    }
}

/// The working set after the database's library and definitions are seen.
pub open spec fn reconciled(
    w: DefinitionsView,
    defs: Seq<DefinitionView>,
    saved_presets: Option<LibraryView>,
    plants_loaded: bool,
    c: CoverageView,
) -> DefinitionsView {
    DefinitionsView {
        entries: reconciled_definitions(w.entries, defs, c.entries),
        presets: reconcile_preset_entry(
            w.presets,
            saved_presets,
            any_entry(w.entries, |e: DefEntryView| def_dirty(e)) || any_where(c.entries, |e: EntryView| is_pinned(e)),
        ),
        revision: bump_if(
            definitions_reconcile_changes(w.entries, defs, c.entries),
            bump_if(preset_reconcile_changes(w.presets, saved_presets), w.revision),
        ),
        plants_loaded: w.plants_loaded || plants_loaded,
    }
}

/// An optional borrowed library by value.
pub open spec fn olib(l: Option<&PresetLibrary>) -> Option<LibraryView> {
    match l {
        Some(x) => Some(x@),
        None => None,
    }
}

/// What a save writes of the definitions: for each dirty one, the revision its checkpoint
/// has and its local value.
pub open spec fn definition_writes(s: Seq<DefEntryView>) -> Seq<(u64, DefinitionView)>
    decreases s.len(),
{
    if s.len() == 0 {
        Seq::empty()
    } else if def_dirty(s.last()) {
        definition_writes(s.drop_last()).push((s.last().base.revision, s.last().current))
    } else {
        definition_writes(s.drop_last())
    }
}

/// A dirty definition's save is under way with the request.
pub open spec fn marked_definition(e: DefEntryView, request: u64) -> DefEntryView {
    if def_dirty(e) {
        DefEntryView { state: StateView::Saving(request), ..e }
    } else {
        e
    }
}

/// A dirty library's save is under way with the request.
pub open spec fn marked_presets(p: Option<PresetEntryView>, request: u64) -> Option<PresetEntryView> {
    match p {
        Some(e) => if e.base != e.current {
            Some(PresetEntryView { state: StateView::Saving(request), ..e })
        } else {
            p
        },
        None => None,
    }
}

/// One definition or library to write, with the checkpoint revision the database must still
/// hold.
#[derive(Debug)]
pub struct DefinitionWrite {
    pub expected_revision: u64,
    pub definition: EnvironmentDefinition,
}

/// How a save of definitions and library ended.
#[derive(Debug)]
pub enum DefinitionSaveOutcome {
    /// Everything was written: the saved definitions and, if it was written, the library.
    Committed { definitions: Vec<EnvironmentDefinition>, presets: Option<PresetLibrary> },
    /// The database holds another version of a space's definition (or none).
    DefinitionConflict { space: WorldSpaceId, actual: Option<EnvironmentDefinition> },
    /// The database holds another library.
    LibraryConflict { actual: PresetLibrary },
    /// Another record of the transaction was in conflict.
    OtherConflict,
    Failed(String),
}

/// How a save ended, by value.
pub enum OutcomeView {
    Committed { definitions: Seq<DefinitionView>, presets: Option<LibraryView> },
    DefinitionConflict { space: WorldSpaceId, actual: Option<DefinitionView> },
    LibraryConflict { actual: LibraryView },
    OtherConflict,
    Failed(Seq<char>),
}

/// The outcome by value.
pub open spec fn ov(o: DefinitionSaveOutcome) -> OutcomeView {
    match o {
        DefinitionSaveOutcome::Committed { definitions, presets } => OutcomeView::Committed {
            definitions: dviews(definitions@),
            presets: match presets {
                Some(l) => Some(l@),
                None => None,
            },
        },
        DefinitionSaveOutcome::DefinitionConflict { space, actual } => OutcomeView::DefinitionConflict {
            space,
            actual: match actual {
                Some(d) => Some(d@),
                None => None,
            },
        },
        DefinitionSaveOutcome::LibraryConflict { actual } => OutcomeView::LibraryConflict { actual: actual@ },
        DefinitionSaveOutcome::OtherConflict => OutcomeView::OtherConflict,
        DefinitionSaveOutcome::Failed(e) => OutcomeView::Failed(e@),
    }
}

/// The state of a save matched to the request once the outcome is known: failed with the
/// outcome's error, or idle; other states stay.
pub open spec fn settled_state<V>(st: StateView<V>, request: u64, o: OutcomeView) -> StateView<V> {
    if st == StateView::<V>::Saving(request) {
        match o {
            OutcomeView::Failed(m) => StateView::Failed(m),
            _ => StateView::Idle,
        }
    } else {
        st
    }
}

/// The library entry after the outcome: its save settled; a committed library becomes
/// checkpoint and local value; a library conflict records the database's library.
pub open spec fn finished_presets(p: Option<PresetEntryView>, request: u64, o: OutcomeView) -> Option<PresetEntryView> {
    match p {
        None => None,
        Some(e) => {
            let e1 = PresetEntryView { state: settled_state(e.state, request, o), ..e };
            match o {
                OutcomeView::Committed { presets: Some(l), .. } => Some(
                    PresetEntryView { base: l, current: l, state: StateView::Idle },
                ),
                OutcomeView::LibraryConflict { actual } => Some(
                    PresetEntryView { state: StateView::Conflict(Some(actual)), ..e1 },
                ),
                _ => Some(e1),
            }
        },
    }
}

/// The outcome commits a library into a loaded library entry.
pub open spec fn presets_committed(p: Option<PresetEntryView>, o: OutcomeView) -> bool {
    p is Some && o matches OutcomeView::Committed { presets: Some(_), .. }
}

/// The entries after a committed definition: it becomes checkpoint and local value of its
/// space, when that space is loaded.
pub open spec fn commit_definition(s: Seq<DefEntryView>, d: DefinitionView) -> Seq<DefEntryView> {
    if has_space(s, d.space) {
        s.update(space_index(s, d.space), DefEntryView { base: d, current: d, state: StateView::Idle })
    } else {
        s
    }
}

/// The entries after each committed definition in turn.
pub open spec fn commit_definitions(s: Seq<DefEntryView>, defs: Seq<DefinitionView>) -> Seq<DefEntryView>
    decreases defs.len(),
{
    if defs.len() == 0 {
        s
    } else {
        commit_definition(commit_definitions(s, defs.drop_last()), defs.last())
    }
}

/// The painted cells after each committed definition's revision is taken up in turn.
pub open spec fn retarget_all(c: Seq<EntryView>, defs: Seq<DefinitionView>) -> Seq<EntryView>
    decreases defs.len(),
{
    if defs.len() == 0 {
        c
    } else {
        retarget_all(c, defs.drop_last()).map_values(
            |e: EntryView| retarget_entry(e, defs.last().space, defs.last().revision),
        )
    }
}

/// The entries after the outcome: saves of the request settled, then what the outcome says of
/// definitions applied.
pub open spec fn finished_definitions(s: Seq<DefEntryView>, request: u64, o: OutcomeView) -> Seq<DefEntryView> {
    let s1 = s.map_values(|e: DefEntryView| DefEntryView { state: settled_state(e.state, request, o), ..e });
    match o {
        OutcomeView::Committed { definitions, .. } => commit_definitions(s1, definitions),
        OutcomeView::DefinitionConflict { space, actual } => if has_space(s1, space) {
            s1.update(
                space_index(s1, space),
                DefEntryView { state: StateView::Conflict(actual), ..s1[space_index(s1, space)] },
            )
        } else {
            s1
        },
        _ => s1,
    }
}

/// The outcome commits some definition.
pub open spec fn definitions_committed(o: OutcomeView) -> bool {
    o matches OutcomeView::Committed { definitions, .. } && definitions.len() > 0
}

/// The painted cells after the outcome.
pub open spec fn finished_coverage(c: CoverageView, p: Option<PresetEntryView>, o: OutcomeView) -> CoverageView {
    CoverageView {
        entries: match o {
            OutcomeView::Committed { definitions, .. } => retarget_all(c.entries, definitions),
            _ => c.entries,
        },
        edit_revision: bump_if(definitions_committed(o), bump_if(presets_committed(p, o), c.edit_revision)),
        ..c
    }
}

impl DefinitionWorkingSet {
    fn replace_entry(&mut self, i: usize, e: DefinitionEntry)
        requires
            old(self).wf(),
            i < old(self)@.entries.len(),
            space_of(dev(e)) == space_of(old(self)@.entries[i as int]),
        ensures
            final(self).wf(),
            final(self)@ == (DefinitionsView { entries: old(self)@.entries.update(i as int, dev(e)), ..old(self)@ }),
    {
        let ghost s = self@.entries;
        self.entries.set(i, e);
        proof {
            assert(self@.entries =~= s.update(i as int, dev(e)));
            let t = self@.entries;
            assert forall|a: int, b: int| 0 <= a < b < t.len() implies space_of(t[a]).0 < space_of(t[b]).0 by {
                assert(space_of(t[a]) == space_of(s[a]) && space_of(t[b]) == space_of(s[b]));
            }
        }
    }

    fn any_dirty(&self) -> (r: bool)
        ensures
            r == any_entry(self@.entries, |e: DefEntryView| def_dirty(e)),
    {
        let mut i: usize = 0;
        while i < self.entries.len()
            invariant
                i <= self.entries@.len(),
                forall|k: int| 0 <= k < i ==> !def_dirty(#[trigger] self@.entries[k]),
            decreases self.entries@.len() - i,
        {
            proof {
                self.lemma_view_index(i as int);
            }
            if !self.entries[i].base.same_as(&self.entries[i].current) {
                assert(def_dirty(self@.entries[i as int]));
                return true;
            }
            i = i + 1;
        }
        false
    }

    fn reconcile_one(&mut self, d: &EnvironmentDefinition, pinned: bool) -> (changed: bool)
        requires
            old(self).wf(),
        ensures
            final(self).wf(),
            final(self)@ == (DefinitionsView {
                entries: reconcile_definition(old(self)@.entries, d@, pinned),
                ..old(self)@
            }),
            changed == definition_reconcile_changes(old(self)@.entries, d@),
    {
        match self.position(d.space) {
            Some(i) => {
                proof {
                    self.lemma_view_index(i as int);
                    lemma_space_index(self@.entries, i as int);
                }
                let idle = match self.entries[i].state {
                    DefinitionSaveState::Idle => true,
                    _ => false,
                };
                if idle && !self.entries[i].base.same_as(d) {
                    let dirty = !self.entries[i].base.same_as(&self.entries[i].current);
                    if dirty || pinned {
                        let e = DefinitionEntry {
                            base: self.entries[i].base.duplicate(),
                            current: self.entries[i].current.duplicate(),
                            state: DefinitionSaveState::Conflict(Some(d.duplicate())),
                        };
                        self.replace_entry(i, e);
                    } else {
                        self.replace_entry(
                            i,
                            DefinitionEntry { base: d.duplicate(), current: d.duplicate(), state: DefinitionSaveState::Idle },
                        );
                    }
                    true
                } else {
                    false
                }
            },
            None => {
                self.put_entry(DefinitionEntry { base: d.duplicate(), current: d.duplicate(), state: DefinitionSaveState::Idle });
                true
            },
        }
    }

    /// Takes in what the database holds: the library (once the project read it), the
    /// definitions of the loaded spaces, and whether the plant catalog is loaded. Entries the
    /// database has passed adopt its version, or are in conflict with it where local edits
    /// would be lost (see `reconcile_preset_entry` and `reconcile_definition`).
    pub fn reconcile(
        &mut self,
        saved_definitions: &[EnvironmentDefinition],
        saved_presets: Option<&PresetLibrary>,
        plants_loaded: bool,
        coverage: &mut CoverageWorkingSet,
    )
        requires
            old(self).wf(),
        ensures
            final(self).wf(),
            final(coverage).wf() == old(coverage).wf(),
            final(self)@ == reconciled(old(self)@, dviews(saved_definitions@), olib(saved_presets), plants_loaded, old(coverage)@),
            final(coverage)@ == touch_if(
                definitions_reconcile_changes(old(self)@.entries, dviews(saved_definitions@), old(coverage)@.entries),
                touch_if(preset_reconcile_changes(old(self)@.presets, olib(saved_presets)), old(coverage)@),
            ),
    {
        let ghost w0 = self@;
        let ghost c0 = coverage@;
        if plants_loaded {
            self.plants_loaded = true;
        }
        let local_edits = self.any_dirty() || coverage.any_pinned();
        if let Some(saved) = saved_presets {
            match self.presets.take() {
                None => {
                    self.presets = Some(
                        PresetEntry { base: saved.duplicate(), current: saved.duplicate(), state: DefinitionSaveState::Idle },
                    );
                    self.bump(coverage);
                },
                Some(entry) => {
                    let idle = match entry.state {
                        DefinitionSaveState::Idle => true,
                        _ => false,
                    };
                    if idle && !entry.base.same_as(saved) {
                        if !entry.base.same_as(&entry.current) || local_edits {
                            let PresetEntry { base, current, state: _ } = entry;
                            self.presets = Some(
                                PresetEntry { base, current, state: DefinitionSaveState::Conflict(Some(saved.duplicate())) },
                            );
                        } else {
                            self.presets = Some(
                                PresetEntry { base: saved.duplicate(), current: saved.duplicate(), state: DefinitionSaveState::Idle },
                            );
                        }
                        self.bump(coverage);
                    } else {
                        self.presets = Some(entry);
                    }
                },
            }
        }
        proof {
            assert(self@.presets == reconcile_preset_entry(
                w0.presets,
                olib(saved_presets),
                any_entry(w0.entries, |e: DefEntryView| def_dirty(e)) || any_where(c0.entries, |e: EntryView| is_pinned(e)),
            ));
        }
        let ghost defs = dviews(saved_definitions@);
        let ghost mid = self@;
        let ghost cmid = coverage@;
        let mut changed = false;
        let mut k: usize = 0;
        assert(defs.take(0) =~= Seq::<DefinitionView>::empty());
        while k < saved_definitions.len()
            invariant
                self.wf(),
                k <= saved_definitions@.len(),
                defs == dviews(saved_definitions@),
                coverage@ == cmid,
                cmid.entries == c0.entries,
                self@ == (DefinitionsView {
                    entries: reconciled_definitions(w0.entries, defs.take(k as int), c0.entries),
                    ..mid
                }),
                changed == definitions_reconcile_changes(w0.entries, defs.take(k as int), c0.entries),
            decreases saved_definitions@.len() - k,
        {
            let d = &saved_definitions[k];
            let pinned = coverage.space_pinned(d.space);
            proof {
                assert(defs.take(k + 1).drop_last() =~= defs.take(k as int));
                assert(defs.take(k + 1).last() == d@);
            }
            let one = self.reconcile_one(d, pinned);
            changed = changed || one;
            k = k + 1;
        }
        assert(defs.take(k as int) =~= defs);
        if changed {
            self.bump(coverage);
        }
    }

    /// What a save writes of the definitions: each dirty one with its checkpoint's revision,
    /// by ascending space.
    pub fn writes(&self) -> (r: Vec<DefinitionWrite>)
        ensures
            r@.map_values(|w: DefinitionWrite| (w.expected_revision, w.definition@)) == definition_writes(self@.entries),
    {
        let mut r: Vec<DefinitionWrite> = Vec::new();
        let mut i: usize = 0;
        while i < self.entries.len()
            invariant
                i <= self.entries@.len(),
                r@.map_values(|w: DefinitionWrite| (w.expected_revision, w.definition@)) == definition_writes(
                    self@.entries.take(i as int),
                ),
            decreases self.entries@.len() - i,
        {
            proof {
                self.lemma_view_index(i as int);
                assert(self@.entries.take(i + 1).drop_last() =~= self@.entries.take(i as int));
            }
            let e = &self.entries[i];
            if !e.base.same_as(&e.current) {
                r.push(DefinitionWrite { expected_revision: e.base.revision, definition: e.current.duplicate() });
                assert(r@.map_values(|w: DefinitionWrite| (w.expected_revision, w.definition@)) =~= definition_writes(
                    self@.entries.take(i as int),
                ).push((e.base@.revision, e.current@)));
            }
            i = i + 1;
        }
        assert(self@.entries.take(i as int) =~= self@.entries);
        r
    }

    /// Marks the dirty definitions and the dirty library as saving with the request.
    pub fn mark_saving(&mut self, request: u64)
        requires
            old(self).wf(),
        ensures
            final(self).wf(),
            final(self)@ == (DefinitionsView {
                entries: old(self)@.entries.map_values(|e: DefEntryView| marked_definition(e, request)),
                presets: marked_presets(old(self)@.presets, request),
                ..old(self)@
            }),
    {
        if let Some(entry) = self.presets.take() {
            if !entry.base.same_as(&entry.current) {
                let PresetEntry { base, current, state: _ } = entry;
                self.presets = Some(PresetEntry { base, current, state: DefinitionSaveState::Saving(request) });
            } else {
                self.presets = Some(entry);
            }
        }
        let ghost s = self@.entries;
        let mut i: usize = 0;
        while i < self.entries.len()
            invariant
                self.wf(),
                i <= s.len(),
                s.len() == self@.entries.len(),
                forall|k: int| 0 <= k < i ==> self@.entries[k] == marked_definition(#[trigger] s[k], request),
                forall|k: int| i <= k < s.len() ==> self@.entries[k] == s[k],
                self@.presets == marked_presets(old(self)@.presets, request),
                self@.revision == old(self)@.revision,
                self@.plants_loaded == old(self)@.plants_loaded,
                s == old(self)@.entries,
            decreases s.len() - i,
        {
            proof {
                self.lemma_view_index(i as int);
            }
            if !self.entries[i].base.same_as(&self.entries[i].current) {
                let e = DefinitionEntry {
                    base: self.entries[i].base.duplicate(),
                    current: self.entries[i].current.duplicate(),
                    state: DefinitionSaveState::Saving(request),
                };
                self.replace_entry(i, e);
            }
            i = i + 1;
        }
        assert(self@.entries =~= s.map_values(|e: DefEntryView| marked_definition(e, request)));
    }
}

impl DefinitionWorkingSet {
    /// Settles the saves of a request with its outcome: matched saves fail with its error or
    /// become idle; committed definitions and library become checkpoints and local values (the
    /// painted cells of each committed space take up its new revision); a conflict records
    /// the database's version.
    pub fn finish_save(&mut self, request: u64, outcome: &DefinitionSaveOutcome, coverage: &mut CoverageWorkingSet)
        requires
            old(self).wf(),
            old(coverage).wf(),
        ensures
            final(self).wf(),
            final(coverage).wf(),
            final(self)@ == (DefinitionsView {
                entries: finished_definitions(old(self)@.entries, request, ov(*outcome)),
                presets: finished_presets(old(self)@.presets, request, ov(*outcome)),
                revision: bump_if(
                    definitions_committed(ov(*outcome)),
                    bump_if(presets_committed(old(self)@.presets, ov(*outcome)), old(self)@.revision),
                ),
                ..old(self)@
            }),
            final(coverage)@ == finished_coverage(old(coverage)@, old(self)@.presets, ov(*outcome)),
    {
        let ghost o = ov(*outcome);
        let ghost w0 = self@;
        if let Some(entry) = self.presets.take() {
            let PresetEntry { base, current, state } = entry;
            let settled = match state {
                DefinitionSaveState::Saving(id) => if id == request {
                    match outcome {
                        DefinitionSaveOutcome::Failed(e) => DefinitionSaveState::Failed(e.clone()),
                        _ => DefinitionSaveState::Idle,
                    }
                } else {
                    DefinitionSaveState::Saving(id)
                },
                other => other,
            };
            let mut entry = PresetEntry { base, current, state: settled };
            proof {
                assert(pev(entry) == PresetEntryView { state: settled_state(w0.presets->Some_0.state, request, o), ..w0.presets->Some_0 });
            }
            let mut committed = false;
            match outcome {
                DefinitionSaveOutcome::Committed { presets: Some(l), .. } => {
                    entry = PresetEntry { base: l.duplicate(), current: l.duplicate(), state: DefinitionSaveState::Idle };
                    committed = true;
                },
                DefinitionSaveOutcome::LibraryConflict { actual } => {
                    let PresetEntry { base, current, state: _ } = entry;
                    entry = PresetEntry { base, current, state: DefinitionSaveState::Conflict(Some(actual.duplicate())) };
                },
                _ => {},
            }
            self.presets = Some(entry);
            if committed {
                self.bump(coverage);
            }
        }
        proof {
            assert(self@.presets == finished_presets(w0.presets, request, o));
        }
        let ghost s = self@.entries;
        let ghost settled = s.map_values(|e: DefEntryView| DefEntryView { state: settled_state(e.state, request, o), ..e });
        let mut i: usize = 0;
        while i < self.entries.len()
            invariant
                self.wf(),
                i <= s.len(),
                s.len() == self@.entries.len(),
                s == w0.entries,
                o == ov(*outcome),
                settled == s.map_values(|e: DefEntryView| DefEntryView { state: settled_state(e.state, request, o), ..e }),
                forall|k: int| 0 <= k < i ==> self@.entries[k] == #[trigger] settled[k],
                forall|k: int| i <= k < s.len() ==> self@.entries[k] == s[k],
                self@.presets == finished_presets(w0.presets, request, o),
                self@.revision == bump_if(presets_committed(w0.presets, o), w0.revision),
                self@.plants_loaded == w0.plants_loaded,
                coverage.wf(),
                coverage@ == touch_if(presets_committed(w0.presets, o), old(coverage)@),
            decreases s.len() - i,
        {
            proof {
                self.lemma_view_index(i as int);
            }
            let matched = match self.entries[i].state {
                DefinitionSaveState::Saving(id) => id == request,
                _ => false,
            };
            if matched {
                let next = match outcome {
                    DefinitionSaveOutcome::Failed(e) => DefinitionSaveState::Failed(e.clone()),
                    _ => DefinitionSaveState::Idle,
                };
                let e = DefinitionEntry {
                    base: self.entries[i].base.duplicate(),
                    current: self.entries[i].current.duplicate(),
                    state: next,
                };
                self.replace_entry(i, e);
            }
            i = i + 1;
        }
        assert(self@.entries =~= settled);
        match outcome {
            DefinitionSaveOutcome::Committed { definitions, .. } => {
                let ghost defs = dviews(definitions@);
                let ghost c1 = coverage@;
                let mut k: usize = 0;
                assert(defs.take(0) =~= Seq::<DefinitionView>::empty());
                while k < definitions.len()
                    invariant
                        self.wf(),
                        coverage.wf(),
                        k <= definitions@.len(),
                        defs == dviews(definitions@),
                        self@ == (DefinitionsView { entries: commit_definitions(settled, defs.take(k as int)), ..self@ }),
                        self@.presets == finished_presets(w0.presets, request, o),
                        self@.revision == bump_if(presets_committed(w0.presets, o), w0.revision),
                        self@.plants_loaded == w0.plants_loaded,
                        coverage@ == (CoverageView { entries: retarget_all(c1.entries, defs.take(k as int)), ..c1 }),
                    decreases definitions@.len() - k,
                {
                    let d = &definitions[k];
                    proof {
                        assert(defs.take(k + 1).drop_last() =~= defs.take(k as int));
                        assert(defs.take(k + 1).last() == d@);
                    }
                    match self.position(d.space) {
                        Some(i) => {
                            proof {
                                self.lemma_view_index(i as int);
                                lemma_space_index(self@.entries, i as int);
                            }
                            self.replace_entry(
                                i,
                                DefinitionEntry { base: d.duplicate(), current: d.duplicate(), state: DefinitionSaveState::Idle },
                            );
                        },
                        None => {},
                    }
                    coverage.retarget_definition(d.space, d.revision);
                    k = k + 1;
                }
                assert(defs.take(k as int) =~= defs);
                if definitions.len() > 0 {
                    self.bump(coverage);
                }
            },
            DefinitionSaveOutcome::DefinitionConflict { space, actual } => {
                match self.position(*space) {
                    Some(i) => {
                        proof {
                            self.lemma_view_index(i as int);
                            lemma_space_index(self@.entries, i as int);
                        }
                        let a = match actual {
                            Some(d) => Some(d.duplicate()),
                            None => None,
                        };
                        let e = DefinitionEntry {
                            base: self.entries[i].base.duplicate(),
                            current: self.entries[i].current.duplicate(),
                            state: DefinitionSaveState::Conflict(a),
                        };
                        self.replace_entry(i, e);
                    },
                    None => {},
                }
            },
            _ => {},
        }
    }
}

/// The database's library with the local edits kept, identity by identity in the order given:
/// each preset that the local library changed from its checkpoint takes the local version (or
/// is removed with it); the others stay as the database has them.
pub open spec fn kept_over(
    lib: Seq<PresetView>,
    base: Seq<PresetView>,
    current: Seq<PresetView>,
    ids: Seq<u128>,
) -> Seq<PresetView>
    decreases ids.len(),
{
    if ids.len() == 0 {
        lib
    } else {
        let id = PresetId(ids[0]);
        if find_preset(base, id) == find_preset(current, id) {
            kept_over(lib, base, current, ids.drop_first())
        } else {
            kept_over(replace_preset(lib, id, find_preset(current, id)), base, current, ids.drop_first())
        }
    }
}

/// The library a conflict resolves to, before validation: keeping local edits, the database's
/// library with the locally changed presets taken over, normalized against it; otherwise the
/// database's library itself. None without a library conflict that carries a library.
pub open spec fn preset_resolution(p: Option<PresetEntryView>, keep: bool) -> Option<LibraryView> {
    match p {
        Some(e) => match e.state {
            StateView::Conflict(Some(actual)) => Some(
                if keep {
                    normalized_library(
                        LibraryView {
                            revision: actual.revision,
                            presets: kept_over(
                                actual.presets,
                                e.base.presets,
                                e.current.presets,
                                ascending_ids(id_set(e.base.presets, e.current.presets)),
                            ),
                        },
                        actual,
                    )
                } else {
                    actual
                },
            ),
            _ => None,
        },
        None => None,
    }
}

/// The library conflict can be resolved: there is a resolution and validation accepts it.
pub open spec fn preset_resolvable(w: DefinitionsView, keep: bool, checks: ChecksView) -> bool {
    preset_resolution(w.presets, keep) matches Some(l) && library_edit_error(w, l, checks) is None
}

/// A definition conflict can be resolved: the database holds a definition of the space on the
/// same grid, and, to take it over the local edit, the painted cells fit its layers, the
/// library is loaded and the compiler accepts its layers (`valid` lists the spaces whose
/// database definition it accepts).
pub open spec fn resolvable(
    e: DefEntryView,
    keep: bool,
    c: Seq<EntryView>,
    presets_loaded: bool,
    valid: Seq<WorldSpaceId>,
) -> bool {
    &&& e.state matches StateView::Conflict(Some(actual))
    &&& actual.space == space_of(e)
    &&& same_grid(actual, e.current)
    &&& (keep || (coverage_fits(c, actual) && presets_loaded && valid.contains(space_of(e))))
}

/// The entry once its conflict is resolved: the database's definition is the checkpoint, and
/// the local value keeps the local edit with the new revisions, or is the database's.
pub open spec fn resolved_entry(e: DefEntryView, keep: bool) -> DefEntryView {
    let actual = e.state->Conflict_0->Some_0;
    DefEntryView {
        base: actual,
        current: if keep {
            normalized_definition(e.current, actual)
        } else {
            actual
        },
        state: StateView::Idle,
    }
}

/// The entries with every resolvable conflict resolved.
pub open spec fn resolved_definitions(
    s: Seq<DefEntryView>,
    keep: bool,
    c: Seq<EntryView>,
    presets_loaded: bool,
    valid: Seq<WorldSpaceId>,
) -> Seq<DefEntryView> {
    s.map_values(
        |e: DefEntryView| if resolvable(e, keep, c, presets_loaded, valid) {
            resolved_entry(e, keep)
        } else {
            e
        },
    )
}

/// The painted cells after each resolved space's database revision is taken up, in order.
pub open spec fn retarget_resolved(
    c: Seq<EntryView>,
    s: Seq<DefEntryView>,
    keep: bool,
    c0: Seq<EntryView>,
    presets_loaded: bool,
    valid: Seq<WorldSpaceId>,
) -> Seq<EntryView>
    decreases s.len(),
{
    if s.len() == 0 {
        c
    } else {
        let prev = retarget_resolved(c, s.drop_last(), keep, c0, presets_loaded, valid);
        if resolvable(s.last(), keep, c0, presets_loaded, valid) {
            prev.map_values(
                |x: EntryView| retarget_entry(x, space_of(s.last()), s.last().state->Conflict_0->Some_0.revision),
            )
        } else {
            prev
        }
    }
}

proof fn lemma_retarget_keeps_fit(c: Seq<EntryView>, space: WorldSpaceId, revision: u64, d: DefinitionView)
    ensures
        coverage_fits(c.map_values(|x: EntryView| retarget_entry(x, space, revision)), d) == coverage_fits(c, d),
{
    let m = c.map_values(|x: EntryView| retarget_entry(x, space, revision));
    assert forall|i: int| 0 <= i < c.len() implies m[i].current.space == c[i].current.space && m[i].current.tiles
        == c[i].current.tiles by {}
    if coverage_fits(c, d) {
        assert forall|i: int| 0 <= i < m.len() && (#[trigger] m[i]).current.space == d.space implies forall|t: int|
            0 <= t < m[i].current.tiles.len() ==> layer_ids(d).contains((#[trigger] m[i].current.tiles[t]).0)
                && m[i].current.tiles[t].1.len() == d.mask_resolution as int * d.mask_resolution as int by {
            assert(c[i].current.space == d.space);
        }
    }
    if coverage_fits(m, d) {
        assert forall|i: int| 0 <= i < c.len() && (#[trigger] c[i]).current.space == d.space implies forall|t: int|
            0 <= t < c[i].current.tiles.len() ==> layer_ids(d).contains((#[trigger] c[i].current.tiles[t]).0)
                && c[i].current.tiles[t].1.len() == d.mask_resolution as int * d.mask_resolution as int by {
            assert(m[i].current.space == d.space);
        }
    }
}

fn space_listed(valid: &[WorldSpaceId], space: WorldSpaceId) -> (r: bool)
    ensures
        r == valid@.contains(space),
{
    let mut k: usize = 0;
    while k < valid.len()
        invariant
            k <= valid@.len(),
            forall|j: int| 0 <= j < k ==> valid@[j] != space,
        decreases valid@.len() - k,
    {
        if valid[k] == space {
            assert(valid@[k as int] == space);
            return true;
        }
        k = k + 1;
    }
    false
}

impl DefinitionWorkingSet {
    /// The library a library conflict resolves to, before validation (see
    /// `preset_resolution`); the caller validates it with the compiler.
    pub fn resolved_presets(&self, keep: bool) -> (r: Option<PresetLibrary>)
        ensures
            match r {
                Some(l) => preset_resolution(self@.presets, keep) == Some(l@),
                None => preset_resolution(self@.presets, keep) is None,
            },
    {
        let entry = match &self.presets {
            Some(e) => e,
            None => {
                return None;
            },
        };
        let actual = match &entry.state {
            DefinitionSaveState::Conflict(Some(a)) => a,
            _ => {
                return None;
            },
        };
        let mut result = actual.duplicate();
        if keep {
            let ids = preset_ids(&entry.base.presets, &entry.current.presets);
            let ghost all = ids@;
            let ghost bs = entry.base@.presets;
            let ghost cs = entry.current@.presets;
            let ghost goal = kept_over(actual@.presets, bs, cs, all);
            let mut k: usize = 0;
            assert(all.skip(0) =~= all);
            while k < ids.len()
                invariant
                    k <= ids@.len(),
                    all == ids@,
                    bs == entry.base@.presets,
                    cs == entry.current@.presets,
                    goal == kept_over(actual@.presets, bs, cs, all),
                    result.revision == actual.revision,
                    kept_over(result@.presets, bs, cs, all.skip(k as int)) == goal,
                decreases ids@.len() - k,
            {
                assert(all.skip(k as int).drop_first() =~= all.skip(k + 1));
                assert(all.skip(k as int)[0] == ids@[k as int]);
                let id = PresetId(ids[k]);
                let c = entry.current.get(id);
                if !same_preset(entry.base.get(id), c) {
                    let ghost before = result@.presets;
                    remove_preset(&mut result.presets, id);
                    match c {
                        Some(p) => {
                            result.presets.push(p.duplicate());
                            assert(result@.presets =~= replace_preset(before, id, Some(p@)));
                        },
                        None => {},
                    }
                }
                k = k + 1;
            }
            assert(all.skip(k as int) =~= Seq::<u128>::empty());
            normalize(&mut result, actual);
        }
        Some(result)
    }

    /// Whether the library conflict can be resolved: `checks` are the compiler's verdicts on
    /// the resolution.
    pub fn can_resolve_presets(&self, keep: bool, checks: &LibraryChecks) -> (r: bool)
        ensures
            r == preset_resolvable(self@, keep, cv(*checks)),
    {
        match self.resolved_presets(keep) {
            Some(l) => self.library_edit_check(&l, checks).is_ok(),
            None => false,
        }
    }

    /// Resolves the library conflict when it can be (see `can_resolve_presets`): the database's
    /// library becomes the checkpoint and the resolution the local library. Reports how many
    /// conflicts it resolved.
    pub fn resolve_preset_conflict(&mut self, keep: bool, checks: &LibraryChecks, coverage: &mut CoverageWorkingSet) -> (n: usize)
        requires
            old(self).wf(),
        ensures
            final(self).wf(),
            final(coverage).wf() == old(coverage).wf(),
            n == if preset_resolvable(old(self)@, keep, cv(*checks)) {
                1usize
            } else {
                0usize
            },
            preset_resolvable(old(self)@, keep, cv(*checks)) ==> final(self)@ == (DefinitionsView {
                presets: Some(
                    PresetEntryView {
                        base: old(self)@.presets->Some_0.state->Conflict_0->Some_0,
                        current: preset_resolution(old(self)@.presets, keep)->Some_0,
                        state: StateView::Idle,
                    },
                ),
                revision: bumped(old(self)@.revision),
                ..old(self)@
            }) && final(coverage)@ == touch_if(true, old(coverage)@),
            !preset_resolvable(old(self)@, keep, cv(*checks)) ==> final(self)@ == old(self)@ && final(coverage)@
                == old(coverage)@,
    {
        let resolved = match self.resolved_presets(keep) {
            Some(l) => l,
            None => {
                return 0;
            },
        };
        if self.library_edit_check(&resolved, checks).is_err() {
            return 0;
        }
        let entry = self.presets.take().unwrap();
        let PresetEntry { base: _, current: _, state } = entry;
        let actual = match state {
            DefinitionSaveState::Conflict(Some(a)) => a,
            _ => {
                proof {
                    assert(false);
                }
                resolved.duplicate()
            },
        };
        self.presets = Some(PresetEntry { base: actual, current: resolved, state: DefinitionSaveState::Idle });
        self.bump(coverage);
        1
    }

    fn entry_resolvable(
        &self,
        i: usize,
        keep: bool,
        presets_loaded: bool,
        valid: &[WorldSpaceId],
        coverage: &CoverageWorkingSet,
    ) -> (r: bool)
        requires
            i < self@.entries.len(),
        ensures
            r == resolvable(self@.entries[i as int], keep, coverage@.entries, presets_loaded, valid@),
    {
        proof {
            self.lemma_view_index(i as int);
        }
        let e = &self.entries[i];
        match &e.state {
            DefinitionSaveState::Conflict(Some(actual)) => {
                if actual.space != e.current.space || !grid_equal(actual, &e.current) {
                    return false;
                }
                if keep {
                    return true;
                }
                if !fits_coverage(coverage, actual) || !presets_loaded {
                    return false;
                }
                space_listed(valid, e.current.space)
            },
            _ => false,
        }
    }

    /// Whether keeping local edits would resolve some conflict.
    pub fn can_keep_conflicts(&self, keep_checks: &LibraryChecks, coverage: &CoverageWorkingSet) -> (r: bool)
        ensures
            r == (preset_resolvable(self@, true, cv(*keep_checks)) || any_entry(
                self@.entries,
                |e: DefEntryView| resolvable(e, true, coverage@.entries, self@.presets is Some, Seq::empty()),
            )),
    {
        if self.can_resolve_presets(true, keep_checks) {
            return true;
        }
        let none: Vec<WorldSpaceId> = Vec::new();
        let loaded = self.presets.is_some();
        let mut i: usize = 0;
        while i < self.entries.len()
            invariant
                i <= self.entries@.len(),
                loaded == self@.presets is Some,
                none@ == Seq::<WorldSpaceId>::empty(),
                forall|k: int| 0 <= k < i ==> !resolvable(#[trigger] self@.entries[k], true, coverage@.entries, loaded, Seq::empty()),
            decreases self.entries@.len() - i,
        {
            if self.entry_resolvable(i, true, loaded, none.as_slice(), coverage) {
                return true;
            }
            i = i + 1;
        }
        false
    }

    /// Whether taking the database's versions would resolve some conflict; `accept_checks` are
    /// the compiler's verdicts on the database's library, `valid` the spaces whose database
    /// definition's layers it accepts.
    pub fn can_accept_conflicts(
        &self,
        accept_checks: &LibraryChecks,
        valid: &[WorldSpaceId],
        coverage: &CoverageWorkingSet,
    ) -> (r: bool)
        ensures
            r == (preset_resolvable(self@, false, cv(*accept_checks)) || any_entry(
                self@.entries,
                |e: DefEntryView| resolvable(e, false, coverage@.entries, self@.presets is Some, valid@),
            )),
    {
        if self.can_resolve_presets(false, accept_checks) {
            return true;
        }
        let loaded = self.presets.is_some();
        let mut i: usize = 0;
        while i < self.entries.len()
            invariant
                i <= self.entries@.len(),
                loaded == self@.presets is Some,
                forall|k: int| 0 <= k < i ==> !resolvable(#[trigger] self@.entries[k], false, coverage@.entries, loaded, valid@),
            decreases self.entries@.len() - i,
        {
            if self.entry_resolvable(i, false, loaded, valid, coverage) {
                return true;
            }
            i = i + 1;
        }
        false
    }

    /// Resolves every conflict that can be: the library's first (see
    /// `resolve_preset_conflict`), then each resolvable definition (see `resolvable`), whose
    /// painted cells take up the database's revision. Reports how many it resolved.
    pub fn resolve_conflicts(
        &mut self,
        keep_local: bool,
        checks: &LibraryChecks,
        valid: &[WorldSpaceId],
        coverage: &mut CoverageWorkingSet,
    ) -> (resolved: usize)
        requires
            old(self).wf(),
            old(coverage).wf(),
        ensures
            final(self).wf(),
            final(coverage).wf(),
            ({
                let lib = preset_resolvable(old(self)@, keep_local, cv(*checks));
                let c0 = old(coverage)@;
                let loaded = old(self)@.presets is Some;
                let defs = count_entries(
                    old(self)@.entries,
                    |e: DefEntryView| resolvable(e, keep_local, c0.entries, loaded, valid@),
                );
                &&& resolved == capped(defs + if lib {
                    1int
                } else {
                    0int
                })
                &&& final(self)@ == (DefinitionsView {
                    entries: resolved_definitions(old(self)@.entries, keep_local, c0.entries, loaded, valid@),
                    presets: if lib {
                        Some(
                            PresetEntryView {
                                base: old(self)@.presets->Some_0.state->Conflict_0->Some_0,
                                current: preset_resolution(old(self)@.presets, keep_local)->Some_0,
                                state: StateView::Idle,
                            },
                        )
                    } else {
                        old(self)@.presets
                    },
                    revision: bump_if(defs > 0, bump_if(lib, old(self)@.revision)),
                    ..old(self)@
                })
                &&& final(coverage)@ == (CoverageView {
                    entries: retarget_resolved(c0.entries, old(self)@.entries, keep_local, c0.entries, loaded, valid@),
                    edit_revision: bump_if(defs > 0, bump_if(lib, c0.edit_revision)),
                    ..c0
                })
            }),
    {
        let ghost w0 = self@;
        let ghost c0 = coverage@;
        let library_resolved = self.resolve_preset_conflict(keep_local, checks, coverage);
        let loaded = self.presets.is_some();
        let ghost s = self@.entries;
        let ghost c1 = coverage@;
        let ghost f = |e: DefEntryView| resolvable(e, keep_local, c0.entries, loaded, valid@);
        let mut n: usize = 0;
        let mut i: usize = 0;
        while i < self.entries.len()
            invariant
                self.wf(),
                coverage.wf(),
                i <= s.len(),
                s.len() == self@.entries.len(),
                s == w0.entries,
                loaded == (w0.presets is Some),
                f == (|e: DefEntryView| resolvable(e, keep_local, c0.entries, loaded, valid@)),
                forall|k: int| 0 <= k < i ==> self@.entries[k] == (if f(s[k]) {
                    resolved_entry(s[k], keep_local)
                } else {
                    s[k]
                }),
                forall|k: int| i <= k < s.len() ==> self@.entries[k] == s[k],
                self@.presets == c1_presets(w0, keep_local, cv(*checks)),
                self@.revision == bump_if(preset_resolvable(w0, keep_local, cv(*checks)), w0.revision),
                self@.plants_loaded == w0.plants_loaded,
                n == count_entries(s.take(i as int), f),
                n <= i,
                coverage@ == (CoverageView {
                    entries: retarget_resolved(c0.entries, s.take(i as int), keep_local, c0.entries, loaded, valid@),
                    ..c1
                }),
                c1 == touch_if(preset_resolvable(w0, keep_local, cv(*checks)), c0),
            decreases s.len() - i,
        {
            proof {
                assert(s.take(i + 1).drop_last() =~= s.take(i as int));
                assert(s.take(i + 1).last() == s[i as int]);
                self.lemma_view_index(i as int);
                lemma_retargets_keep_fit(c0.entries, s.take(i as int), keep_local, loaded, valid@, s[i as int]);
            }
            let hit = self.entry_resolvable(i, keep_local, loaded, valid, coverage);
            if hit {
                let e = &self.entries[i];
                let actual = match &e.state {
                    DefinitionSaveState::Conflict(Some(a)) => a.duplicate(),
                    _ => {
                        proof {
                            assert(false);
                        }
                        e.current.duplicate()
                    },
                };
                let current = if keep_local {
                    normalize_revisions(&e.current, &actual)
                } else {
                    actual.duplicate()
                };
                let space = e.current.space;
                let revision = actual.revision;
                let next = DefinitionEntry { base: actual, current, state: DefinitionSaveState::Idle };
                proof {
                    assert(dev(next) == resolved_entry(s[i as int], keep_local));
                }
                self.replace_entry(i, next);
                coverage.retarget_definition(space, revision);
                n = n + 1;
            }
            i = i + 1;
        }
        proof {
            assert(s.take(i as int) =~= s);
            assert(self@.entries =~= resolved_definitions(s, keep_local, c0.entries, loaded, valid@));
        }
        if n > 0 {
            self.bump(coverage);
        }
        capped_add(n, library_resolved)
    }
}

/// The library entry after the library's own conflict is resolved, when it can be.
pub open spec fn c1_presets(w: DefinitionsView, keep: bool, checks: ChecksView) -> Option<PresetEntryView> {
    if preset_resolvable(w, keep, checks) {
        Some(
            PresetEntryView {
                base: w.presets->Some_0.state->Conflict_0->Some_0,
                current: preset_resolution(w.presets, keep)->Some_0,
                state: StateView::Idle,
            },
        )
    } else {
        w.presets
    }
}

proof fn lemma_retargets_keep_fit(
    c0: Seq<EntryView>,
    s: Seq<DefEntryView>,
    keep: bool,
    loaded: bool,
    valid: Seq<WorldSpaceId>,
    e: DefEntryView,
)
    ensures
        resolvable(e, keep, retarget_resolved(c0, s, keep, c0, loaded, valid), loaded, valid) == resolvable(
            e,
            keep,
            c0,
            loaded,
            valid,
        ),
    decreases s.len(),
{
    if s.len() > 0 {
        lemma_retargets_keep_fit(c0, s.drop_last(), keep, loaded, valid, e);
        let prev = retarget_resolved(c0, s.drop_last(), keep, c0, loaded, valid);
        if resolvable(s.last(), keep, c0, loaded, valid) {
            match e.state {
                StateView::Conflict(Some(actual)) => {
                    lemma_retarget_keeps_fit(prev, space_of(s.last()), s.last().state->Conflict_0->Some_0.revision, actual);
                },
                _ => {},
            }
        }
    }
}

/// The entry of a space (meaningful when there is one).
pub open spec fn entry_of(s: Seq<DefEntryView>, space: WorldSpaceId) -> DefEntryView {
    s[space_index(s, space)]
}

proof fn lemma_put_definition(s: Seq<DefEntryView>, e: DefEntryView, other: WorldSpaceId)
    requires
        spaces_ascending(s),
    ensures
        spaces_ascending(put_definition(s, e)),
        has_space(put_definition(s, e), space_of(e)),
        entry_of(put_definition(s, e), space_of(e)) == e,
        other != space_of(e) ==> has_space(put_definition(s, e), other) == has_space(s, other),
        other != space_of(e) && has_space(s, other) ==> entry_of(put_definition(s, e), other) == entry_of(s, other),
{
    let t = put_definition(s, e);
    let sp = space_of(e);
    if has_space(s, sp) {
        let i = space_index(s, sp);
        assert forall|a: int, b: int| 0 <= a < b < t.len() implies space_of(t[a]).0 < space_of(t[b]).0 by {
            assert(space_of(t[a]) == space_of(s[a]) && space_of(t[b]) == space_of(s[b]));
        }
        lemma_space_index(t, i);
        if has_space(s, other) && other != sp {
            let j = space_index(s, other);
            lemma_space_index(s, j);
            lemma_space_index(t, j);
        }
        if has_space(t, other) && other != sp {
            let j = choose|j: int| 0 <= j < t.len() && space_of(t[j]) == other;
            assert(space_of(s[j]) == other);
        }
    } else {
        assert(exists|p: int| slot_for(s, sp, p)) by {
            lemma_slot_exists(s, sp);
        }
        let p = choose|p: int| slot_for(s, sp, p);
        assert forall|a: int, b: int| 0 <= a < b < t.len() implies space_of(t[a]).0 < space_of(t[b]).0 by {
            if b < p {
                assert(t[a] == s[a] && t[b] == s[b]);
            } else if b == p {
                assert(t[a] == s[a]);
            } else if a < p {
                assert(t[a] == s[a] && t[b] == s[b - 1]);
            } else if a == p {
                assert(t[b] == s[b - 1]);
            } else {
                assert(t[a] == s[a - 1] && t[b] == s[b - 1]);
            }
        }
        assert(t[p] == e);
        lemma_space_index(t, p);
        if has_space(s, other) && other != sp {
            let j = space_index(s, other);
            lemma_space_index(s, j);
            if j < p {
                assert(t[j] == s[j]);
                lemma_space_index(t, j);
            } else {
                assert(t[j + 1] == s[j]);
                lemma_space_index(t, j + 1);
            }
        }
        if has_space(t, other) && other != sp {
            let j = choose|j: int| 0 <= j < t.len() && space_of(t[j]) == other;
            if j < p {
                assert(space_of(s[j]) == other);
            } else if j > p {
                assert(space_of(s[j - 1]) == other);
            }
        }
    }
}

proof fn lemma_slot_exists(s: Seq<DefEntryView>, space: WorldSpaceId)
    requires
        spaces_ascending(s),
        !has_space(s, space),
    ensures
        exists|p: int| slot_for(s, space, p),
    decreases s.len(),
{
    if s.len() == 0 {
        assert(slot_for(s, space, 0));
    } else if space_of(s.last()).0 < space.0 {
        assert(slot_for(s, space, s.len() as int)) by {
            assert forall|k: int| 0 <= k < s.len() implies space_of(#[trigger] s[k]).0 < space.0 by {
                if k < s.len() - 1 {
                    assert(space_of(s[k]).0 < space_of(s.last()).0);
                }
            }
        }
    } else {
        let r = s.drop_last();
        assert(spaces_ascending(r)) by {
            assert forall|a: int, b: int| 0 <= a < b < r.len() implies space_of(r[a]).0 < space_of(r[b]).0 by {
                assert(r[a] == s[a] && r[b] == s[b]);
            }
        }
        assert(!has_space(r, space)) by {
            if has_space(r, space) {
                let k = choose|k: int| 0 <= k < r.len() && space_of(r[k]) == space;
                assert(s[k] == r[k]);
            }
        }
        lemma_slot_exists(r, space);
        let p = choose|p: int| slot_for(r, space, p);
        assert(space_of(s.last()) != space) by {
            if space_of(s.last()) == space {
                assert(space_of(s[s.len() - 1]) == space);
            }
        }
        assert(slot_for(s, space, p)) by {
            assert forall|k: int| p <= k < s.len() implies space_of(#[trigger] s[k]).0 > space.0 by {
                if k < s.len() - 1 {
                    assert(s[k] == r[k]);
                }
            }
            assert forall|k: int| 0 <= k < p implies space_of(#[trigger] s[k]).0 < space.0 by {
                assert(s[k] == r[k]);
            }
        }
    }
}

/// Seeing the database's definition never discards a local edit: a dirty definition keeps
/// its checkpoint and local value (it is left alone or put in conflict), and the entries of
/// other spaces are untouched.
pub proof fn law_reconcile_keeps_local_edits(
    s: Seq<DefEntryView>,
    d: DefinitionView,
    pinned: bool,
    space: WorldSpaceId,
)
    requires
        spaces_ascending(s),
        has_space(s, space),
        def_dirty(entry_of(s, space)) || space != d.space,
    ensures
        spaces_ascending(reconcile_definition(s, d, pinned)),
        has_space(reconcile_definition(s, d, pinned), space),
        entry_of(reconcile_definition(s, d, pinned), space).base == entry_of(s, space).base,
        entry_of(reconcile_definition(s, d, pinned), space).current == entry_of(s, space).current,
        space != d.space ==> entry_of(reconcile_definition(s, d, pinned), space) == entry_of(s, space),
{
    let t = reconcile_definition(s, d, pinned);
    let j = space_index(s, space);
    lemma_space_index(s, j);
    if has_space(s, d.space) {
        let i = space_index(s, d.space);
        lemma_space_index(s, i);
        assert forall|a: int, b: int| 0 <= a < b < t.len() implies space_of(t[a]).0 < space_of(t[b]).0 by {
            assert(space_of(t[a]) == space_of(s[a]) && space_of(t[b]) == space_of(s[b]));
        }
        assert(space_of(t[j]) == space);
        lemma_space_index(t, j);
    } else {
        lemma_put_definition(s, DefEntryView { base: d, current: d, state: StateView::Idle }, space);
    }
}

/// A failed save keeps every local edit: checkpoints and local values stay, and the saves of
/// the request record the failure.
pub proof fn law_failed_save_keeps_edits(s: Seq<DefEntryView>, request: u64, m: Seq<char>, i: int)
    requires
        0 <= i < s.len(),
    ensures
        finished_definitions(s, request, OutcomeView::Failed(m))[i].base == s[i].base,
        finished_definitions(s, request, OutcomeView::Failed(m))[i].current == s[i].current,
        s[i].state == StateView::<DefinitionView>::Saving(request) ==> finished_definitions(
            s,
            request,
            OutcomeView::Failed(m),
        )[i].state == StateView::<DefinitionView>::Failed(m),
{
}

/// A committed definition of a loaded space becomes its checkpoint and local value: the space
/// is clean and idle.
pub proof fn law_commit_makes_clean(s: Seq<DefEntryView>, d: DefinitionView)
    requires
        spaces_ascending(s),
        has_space(s, d.space),
    ensures
        has_space(commit_definition(s, d), d.space),
        entry_of(commit_definition(s, d), d.space) == (DefEntryView { base: d, current: d, state: StateView::Idle }),
        !def_dirty(entry_of(commit_definition(s, d), d.space)),
{
    let i = space_index(s, d.space);
    lemma_space_index(s, i);
    let t = commit_definition(s, d);
    assert forall|a: int, b: int| 0 <= a < b < t.len() implies space_of(t[a]).0 < space_of(t[b]).0 by {
        assert(space_of(t[a]) == space_of(s[a]) && space_of(t[b]) == space_of(s[b]));
    }
    lemma_space_index(t, i);
}

proof fn lemma_kept_versions(lib: Seq<PresetView>, base: Seq<PresetView>, current: Seq<PresetView>, ids: Seq<u128>, id: PresetId)
    requires
        crate::presets::ascending(ids),
    ensures
        find_preset(kept_over(lib, base, current, ids), id) == (if ids.contains(id.0) && find_preset(base, id)
            != find_preset(current, id) {
            find_preset(current, id)
        } else {
            find_preset(lib, id)
        }),
    decreases ids.len(),
{
    if ids.len() > 0 {
        let rest = ids.drop_first();
        assert(crate::presets::ascending(rest)) by {
            assert forall|i: int, j: int| 0 <= i < j < rest.len() implies rest[i] < rest[j] by {
                assert(rest[i] == ids[i + 1] && rest[j] == ids[j + 1]);
            }
        }
        let first = PresetId(ids[0]);
        assert(ids.contains(id.0) <==> (id.0 == ids[0] || rest.contains(id.0))) by {
            if ids.contains(id.0) && id.0 != ids[0] {
                let k = choose|k: int| 0 <= k < ids.len() && ids[k] == id.0;
                assert(rest[k - 1] == id.0);
            }
            if rest.contains(id.0) {
                let k = choose|k: int| 0 <= k < rest.len() && rest[k] == id.0;
                assert(ids[k + 1] == id.0);
            }
        }
        assert(!rest.contains(ids[0])) by {
            if rest.contains(ids[0]) {
                let k = choose|k: int| 0 <= k < rest.len() && rest[k] == ids[0];
                assert(ids[k + 1] == ids[0]);
            }
        }
        if find_preset(base, first) == find_preset(current, first) {
            lemma_kept_versions(lib, base, current, rest, id);
        } else {
            crate::presets::lemma_find_id_pub(current, first);
            lemma_kept_versions(replace_preset(lib, first, find_preset(current, first)), base, current, rest, id);
            crate::presets::lemma_find_replace_pub(lib, first, find_preset(current, first), id);
        }
    }
}

/// Resolving a library conflict by keeping local edits takes, for each preset the local
/// library changed from its checkpoint, the local version (or its removal), and for every
/// other preset the database's version, external changes included (before the revisions and
/// order of the checkpoint are applied).
pub proof fn law_keeping_takes_only_local_changes(
    actual: Seq<PresetView>,
    base: Seq<PresetView>,
    current: Seq<PresetView>,
    id: PresetId,
)
    ensures
        find_preset(kept_over(actual, base, current, ascending_ids(id_set(base, current))), id) == (if find_preset(
            base,
            id,
        ) != find_preset(current, id) {
            find_preset(current, id)
        } else {
            find_preset(actual, id)
        }),
{
    let ids = ascending_ids(id_set(base, current));
    crate::presets::lemma_ids_listed(base, current);
    lemma_kept_versions(actual, base, current, ids, id);
    if !ids.contains(id.0) {
        crate::presets::lemma_absent_same(base, current, id);
    }
}

/// A coverage definition matches the local definition: its space, the identities of its
/// layers, its mask resolution and its revision.
pub open spec fn shapes(c: CoverageDefinition, d: DefinitionView) -> bool {
    c.space == d.space && c.layers@ == layer_ids(d) && c.mask_resolution == d.mask_resolution && c.revision
        == d.revision
}

fn coverage_shape(d: &EnvironmentDefinition) -> (c: CoverageDefinition)
    ensures
        shapes(c, d@),
{
    let mut ids: Vec<LayerId> = Vec::new();
    let mut i: usize = 0;
    while i < d.layers.len()
        invariant
            i <= d.layers@.len(),
            ids@ =~= layer_ids(d@).take(i as int),
        decreases d.layers@.len() - i,
    {
        ids.push(d.layers[i].id);
        assert(layer_ids(d@).take(i + 1) =~= layer_ids(d@).take(i as int).push(d.layers@[i as int].id));
        i = i + 1;
    }
    assert(layer_ids(d@).take(i as int) =~= layer_ids(d@));
    CoverageDefinition { space: d.space, layers: ids, mask_resolution: d.mask_resolution, revision: d.revision }
}

impl DefinitionWorkingSet {
    /// The layers of each local definition as painted coverage is checked against them, by
    /// ascending space.
    pub fn coverage_definitions(&self) -> (r: Vec<CoverageDefinition>)
        ensures
            r@.len() == self@.entries.len(),
            forall|i: int| 0 <= i < r@.len() ==> shapes(#[trigger] r@[i], self@.entries[i].current),
    {
        let mut r: Vec<CoverageDefinition> = Vec::new();
        let mut i: usize = 0;
        while i < self.entries.len()
            invariant
                i <= self.entries@.len(),
                r@.len() == i,
                forall|k: int| 0 <= k < i ==> shapes(#[trigger] r@[k], self@.entries[k].current),
            decreases self.entries@.len() - i,
        {
            proof {
                self.lemma_view_index(i as int);
            }
            r.push(coverage_shape(&self.entries[i].current));
            i = i + 1;
        }
        r
    }
}

/// The spaces whose definition is in conflict, by ascending space.
pub open spec fn conflicted_spaces_of(s: Seq<DefEntryView>) -> Seq<WorldSpaceId>
    decreases s.len(),
{
    if s.len() == 0 {
        Seq::empty()
    } else if s.last().state is Conflict {
        conflicted_spaces_of(s.drop_last()).push(space_of(s.last()))
    } else {
        conflicted_spaces_of(s.drop_last())
    }
}

impl DefinitionWorkingSet {
    /// The spaces whose definition is in conflict, by ascending space; their painted cells are
    /// not reloaded until it is resolved.
    pub fn conflicted_spaces(&self) -> (r: Vec<WorldSpaceId>)
        ensures
            r@ == conflicted_spaces_of(self@.entries),
    {
        let mut r: Vec<WorldSpaceId> = Vec::new();
        let mut i: usize = 0;
        while i < self.entries.len()
            invariant
                i <= self.entries@.len(),
                r@ == conflicted_spaces_of(self@.entries.take(i as int)),
            decreases self.entries@.len() - i,
        {
            proof {
                self.lemma_view_index(i as int);
                assert(self@.entries.take(i + 1).drop_last() =~= self@.entries.take(i as int));
            }
            if let DefinitionSaveState::Conflict(_) = self.entries[i].state {
                r.push(self.entries[i].current.space);
            }
            i = i + 1;
        }
        assert(self@.entries.take(i as int) =~= self@.entries);
        r
    }
}

} // verus!
