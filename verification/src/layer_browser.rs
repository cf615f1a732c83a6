//! Which environment layers the layer browser lists near the editing focus.

use vstd::prelude::*;

use crate::layers::LayerId;
use crate::project_store::ProjectQueryWindow;
use crate::stamps::{CoverageTile, EnvironmentCellRecord};
use crate::world::{CellCoord, WorldSpaceId};

verus! {

broadcast use vstd::seq_lib::lemma_seq_contains_after_push;

/// Whether a cell lies in a query window (bounds included).
pub open spec fn inside_spec(cell: CellCoord, window: ProjectQueryWindow) -> bool {
    window.minimum.x <= cell.x <= window.maximum.x && window.minimum.z <= cell.z
        <= window.maximum.z
}

/// Whether a cell lies in a query window (bounds included).
pub fn inside(cell: CellCoord, window: ProjectQueryWindow) -> (r: bool)
    ensures
        r == inside_spec(cell, window),
{
    cell.x >= window.minimum.x && cell.x <= window.maximum.x && cell.z >= window.minimum.z
        && cell.z <= window.maximum.z
}

/// Whether a tile covers anything: some sample is not zero.
pub open spec fn has_coverage(t: CoverageTile) -> bool {
    exists|i: int| 0 <= i < t.samples@.len() && t.samples@[i] != 0
}

/// The (cell, layer) memberships that a local record states for its cell.
pub open spec fn record_entries(r: EnvironmentCellRecord) -> Set<(CellCoord, LayerId)> {
    Set::new(
        |e: (CellCoord, LayerId)|
            e.0 == r.cell && exists|j: int|
                0 <= j < r.tiles@.len() && r.tiles@[j].layer == e.1 && has_coverage(
                    #[trigger] r.tiles@[j],
                ),
    )
}

/// The memberships after one local record: a record of the window's space inside the window
/// replaces everything known of its cell, erasures included; any other record changes nothing.
pub open spec fn apply_record(
    window: ProjectQueryWindow,
    entries: Set<(CellCoord, LayerId)>,
    r: EnvironmentCellRecord,
) -> Set<(CellCoord, LayerId)> {
    if r.space != window.space || !inside_spec(r.cell, window) {
        entries
    } else {
        entries.filter(|e: (CellCoord, LayerId)| e.0 != r.cell).union(record_entries(r))
    }
}

/// The memberships after the local records, applied in order over the saved ones.
pub open spec fn membership_entries(
    window: ProjectQueryWindow,
    saved: Set<(CellCoord, LayerId)>,
    local: Seq<EnvironmentCellRecord>,
) -> Set<(CellCoord, LayerId)>
    decreases local.len(),
{
    if local.len() == 0 {
        saved
    } else {
        apply_record(window, membership_entries(window, saved, local.drop_last()), local.last())
    }
}

/// The layers that have a membership in some cell.
pub open spec fn layers_of(entries: Set<(CellCoord, LayerId)>) -> Set<LayerId> {
    Set::new(|l: LayerId| exists|c: CellCoord| entries.contains((c, l)))
}

/// The set of the items of a sequence.
pub open spec fn items<T>(s: Seq<T>) -> Set<T> {
    Set::new(|x: T| s.contains(x))
}

fn tile_has_coverage(t: &CoverageTile) -> (r: bool)
    ensures
        r == has_coverage(*t),
{
    let mut i: usize = 0;
    while i < t.samples.len()
        invariant
            i <= t.samples@.len(),
            forall|k: int| 0 <= k < i ==> t.samples@[k] == 0,
        decreases t.samples@.len() - i,
    {
        if t.samples[i] != 0 {
            return true;
        }
        i = i + 1;
    }
    false
}

/// Replaces the memberships of one cell by what a record states for it.
fn replace_cell(entries: Vec<(CellCoord, LayerId)>, r: &EnvironmentCellRecord) -> (out: Vec<
    (CellCoord, LayerId),
>)
    ensures
        items(out@) == items(entries@).filter(|e: (CellCoord, LayerId)| e.0 != r.cell).union(
            record_entries(*r),
        ),
{
    let mut out: Vec<(CellCoord, LayerId)> = Vec::new();
    let mut i: usize = 0;
    while i < entries.len()
        invariant
            i <= entries@.len(),
            forall|e: (CellCoord, LayerId)|
                out@.contains(e) <==> (entries@.take(i as int).contains(e) && e.0 != r.cell),
        decreases entries@.len() - i,
    {
        let e = entries[i];
        if !(e.0 == r.cell) {
            out.push(e);
        }
        proof {
            assert(entries@.take(i + 1) =~= entries@.take(i as int).push(e));
        }
        i = i + 1;
    }
    proof {
        assert(entries@.take(i as int) =~= entries@);
    }
    let ghost kept = out@;
    let mut j: usize = 0;
    while j < r.tiles.len()
        invariant
            j <= r.tiles@.len(),
            forall|e: (CellCoord, LayerId)|
                #![trigger out@.contains(e)]
                out@.contains(e) <==> (kept.contains(e) || (e.0 == r.cell && exists|k: int|
                    0 <= k < j && r.tiles@[k].layer == e.1 && has_coverage(#[trigger] r.tiles@[k]))),
        decreases r.tiles@.len() - j,
    {
        let ghost before = out@;
        let tile = &r.tiles[j];
        let covered = tile_has_coverage(tile);
        if covered {
            out.push((r.cell, tile.layer));
        }
        proof {
            let pushed = (r.cell, r.tiles@[j as int].layer);
            assert(covered ==> out@ == before.push(pushed));
            assert(!covered ==> out@ == before);
            assert forall|e: (CellCoord, LayerId)|
                out@.contains(e) <==> (kept.contains(e) || (e.0 == r.cell && exists|k: int|
                    0 <= k < j + 1 && r.tiles@[k].layer == e.1 && has_coverage(
                        #[trigger] r.tiles@[k],
                    ))) by {
                if covered && e == pushed {
                    assert(out@.contains(e));
                    assert(0 <= j < j + 1 && r.tiles@[j as int].layer == e.1 && has_coverage(
                        r.tiles@[j as int],
                    ));
                }
                if e.0 == r.cell && exists|k: int|
                    0 <= k < j + 1 && r.tiles@[k].layer == e.1 && has_coverage(
                        #[trigger] r.tiles@[k],
                    ) {
                    let k = choose|k: int|
                        0 <= k < j + 1 && r.tiles@[k].layer == e.1 && has_coverage(
                            #[trigger] r.tiles@[k],
                        );
                    if k == j {
                        assert(covered);
                        assert(e == pushed);
                    } else {
                        assert(0 <= k < j && r.tiles@[k].layer == e.1 && has_coverage(r.tiles@[k]));
                        assert(before.contains(e));
                    }
                }
                if out@.contains(e) && !before.contains(e) {
                    assert(covered && e == pushed);
                }
            }
        }
        j = j + 1;
    }
    proof {
        assert(items(out@) =~= items(entries@).filter(|e: (CellCoord, LayerId)| e.0 != r.cell).union(
            record_entries(*r),
        ));
    }
    out
}

/// The layers that have coverage in some cell of the window, once the local records have
/// replaced the saved membership of the cells they touch, erasures included. Records of
/// another space or outside the window change nothing. No layer occurs twice in the result.
pub fn membership(
    window: ProjectQueryWindow,
    saved: &[(CellCoord, LayerId)],
    local: &[EnvironmentCellRecord],
) -> (r: Vec<LayerId>)
    ensures
        items(r@) == layers_of(membership_entries(window, items(saved@), local@)),
        r@.no_duplicates(),
{
    let mut entries: Vec<(CellCoord, LayerId)> = Vec::new();
    let mut i: usize = 0;
    while i < saved.len()
        invariant
            i <= saved@.len(),
            entries@ == saved@.take(i as int),
        decreases saved@.len() - i,
    {
        entries.push(saved[i]);
        proof {
            assert(saved@.take(i + 1) =~= saved@.take(i as int).push(saved@[i as int]));
        }
        i = i + 1;
    }
    proof {
        assert(saved@.take(i as int) =~= saved@);
    }
    let mut k: usize = 0;
    while k < local.len()
        invariant
            k <= local@.len(),
            items(entries@) == membership_entries(window, items(saved@), local@.take(k as int)),
        decreases local@.len() - k,
    {
        let record = &local[k];
        if record.space == window.space && inside(record.cell, window) {
            entries = replace_cell(entries, record);
        }
        proof {
            assert(local@.take(k + 1).drop_last() =~= local@.take(k as int));
        }
        k = k + 1;
    }
    proof {
        assert(local@.take(k as int) =~= local@);
    }
    let mut result: Vec<LayerId> = Vec::new();
    let mut m: usize = 0;
    while m < entries.len()
        invariant
            m <= entries@.len(),
            result@.no_duplicates(),
            forall|l: LayerId|
                result@.contains(l) <==> exists|n: int| 0 <= n < m && (#[trigger] entries@[n]).1 == l,
        decreases entries@.len() - m,
    {
        let layer = entries[m].1;
        let mut seen = false;
        let mut n: usize = 0;
        while n < result.len()
            invariant
                n <= result@.len(),
                seen <==> exists|p: int| 0 <= p < n && result@[p] == layer,
            decreases result@.len() - n,
        {
            if result[n] == layer {
                seen = true;
            }
            n = n + 1;
        }
        if !seen {
            result.push(layer);
        }
        proof {
            assert forall|l: LayerId|
                result@.contains(l) <==> exists|n: int| 0 <= n < m + 1 && (#[trigger] entries@[n]).1 == l by {
                if l == layer {
                    assert(entries@[m as int].1 == l);
                    if seen {
                        let p = choose|p: int| 0 <= p < result@.len() && result@[p] == layer;
                        assert(result@.contains(l));
                    } else {
                        assert(result@.last() == l);
                    }
                }
            }
        }
        m = m + 1;
    }
    proof {
        let entry_set = membership_entries(window, items(saved@), local@);
        assert forall|l: LayerId| items(result@).contains(l) <==> layers_of(entry_set).contains(l) by {
            if items(result@).contains(l) {
                let n = choose|n: int| 0 <= n < m && (#[trigger] entries@[n]).1 == l;
                assert(items(entries@).contains(entries@[n]));
            }
            if layers_of(entry_set).contains(l) {
                let c = choose|c: CellCoord| entry_set.contains((c, l));
                assert(items(entries@).contains((c, l)));
                let n = choose|n: int| 0 <= n < entries@.len() && entries@[n] == (c, l);
                assert(entries@[n].1 == l);
            }
        }
        assert(items(result@) =~= layers_of(entry_set));
    }
    result
}

/// What `str::to_lowercase` returns for a text: its Unicode lowercase mapping.
pub uninterp spec fn lowercase(s: Seq<char>) -> Seq<char>;

/// Calls `str::to_lowercase`.
#[verifier::external_body]
fn to_lowercase(s: &str) -> (r: String)
    ensures
        r@ == lowercase(s@),
{
    s.to_lowercase()
}

/// Whether a text holds another as a contiguous part; the empty text is part of every text.
pub open spec fn contains_text(hay: Seq<char>, needle: Seq<char>) -> bool {
    exists|i: int|
        0 <= i && i + needle.len() <= hay.len() && #[trigger] hay.subrange(i, i + needle.len())
            == needle
}

fn chars_of(s: &str) -> (v: Vec<char>)
    ensures
        v@ == s@,
{
    let mut v: Vec<char> = Vec::new();
    for c in it: s.chars()
        invariant
            v@ == it.seq().take(it.index() as int),
    {
        v.push(c);
    }
    proof {
        broadcast use vstd::string::axiom_spec_iter;
        assert(v@ =~= s@);
    }
    v
}

/// Whether an already lowercased layer name holds an already lowercased search text.
pub fn name_matches(lower_name: &str, lower_search: &str) -> (r: bool)
    ensures
        r == contains_text(lower_name@, lower_search@),
{
    let hay = chars_of(lower_name);
    let needle = chars_of(lower_search);
    let n = needle.len();
    if n > hay.len() {
        proof {
            assert forall|i: int| 0 <= i && i + n <= hay@.len() implies #[trigger] hay@.subrange(
                i,
                i + n,
            ) != needle@ by {}
        }
        return false;
    }
    let mut i: usize = 0;
    while i <= hay.len() - n
        invariant
            hay@ == lower_name@,
            needle@ == lower_search@,
            n == needle@.len(),
            n <= hay@.len(),
            i <= hay@.len() - n + 1,
            forall|p: int| 0 <= p < i ==> #[trigger] hay@.subrange(p, p + n) != needle@,
        decreases hay@.len() + 1 - i,
    {
        let mut k: usize = 0;
        let mut same = true;
        while k < n
            invariant
                n == needle@.len(),
                i + n <= hay@.len(),
                hay@.len() <= usize::MAX,
                k <= n,
                same <==> forall|q: int| 0 <= q < k ==> hay@[i + q] == needle@[q],
            decreases n - k,
        {
            if hay[i + k] != needle[k] {
                same = false;
            }
            k = k + 1;
        }
        if same {
            proof {
                assert(hay@.subrange(i as int, i + n) =~= needle@);
                assert(hay@.subrange(i as int, i + needle@.len()) == needle@);
                assert(contains_text(hay@, needle@));
            }
            return true;
        }
        proof {
            let q = choose|q: int| 0 <= q < n && hay@[i + q] != needle@[q];
            assert(hay@.subrange(i as int, i + n)[q] != needle@[q]);
        }
        i = i + 1;
    }
    proof {
        assert forall|p: int| 0 <= p && p + n <= hay@.len() implies #[trigger] hay@.subrange(
            p,
            p + n,
        ) != needle@ by {}
    }
    false
}

/// Whether a layer id occurs in a list.
fn listed(ids: &[LayerId], id: LayerId) -> (r: bool)
    ensures
        r == ids@.contains(id),
{
    let mut i: usize = 0;
    while i < ids.len()
        invariant
            i <= ids@.len(),
            forall|k: int| 0 <= k < i ==> ids@[k] != id,
        decreases ids@.len() - i,
    {
        if ids[i] == id {
            proof {
                assert(ids@[i as int] == id);
            }
            return true;
        }
        i = i + 1;
    }
    false
}

/// A presence query: the window around the editing focus, the source epoch and the revision
/// of the space's environment definition.
#[derive(Clone, Copy, Debug, PartialEq, Eq, Structural)]
pub struct LayerQuery {
    pub window: ProjectQueryWindow,
    pub epoch: u64,
    pub definition_revision: u64,
}

/// The saved layer presence that answers a query.
#[derive(Clone, Debug)]
pub struct LayerPresence {
    pub entries: Vec<(CellCoord, LayerId)>,
    pub truncated: bool,
    pub definition_revision: u64,
}

/// The layers of one environment definition as saved and as edited.
#[derive(Clone, Debug)]
pub struct DefinitionLayers {
    pub space: WorldSpaceId,
    pub base: Vec<LayerId>,
    pub current: Vec<LayerId>,
}

/// The abstract state of the layer browser.
pub struct LayerBrowserView {
    pub cached: Option<(LayerQuery, u64, u64, Seq<LayerId>)>,
    pub desired: Option<LayerQuery>,
    pub submitted: Option<LayerQuery>,
    pub accepted: Option<(LayerQuery, Seq<(CellCoord, LayerId)>, bool, u64)>,
    pub in_flight: bool,
    pub all: bool,
    pub search: Seq<char>,
    pub error: Option<Seq<char>>,
}

/// The layer browser: which presence query is wanted, asked and answered, and the nearby
/// layers computed from the last answer.
pub struct EnvironmentLayerBrowser {
    cached: Option<(LayerQuery, u64, u64, Vec<LayerId>)>,
    desired: Option<LayerQuery>,
    submitted: Option<LayerQuery>,
    accepted: Option<(LayerQuery, LayerPresence)>,
    in_flight: bool,
    all: bool,
    search: String,
    error: Option<String>,
}

/// The view of an optional message.
pub open spec fn opt_text(e: Option<String>) -> Option<Seq<char>> {
    match e {
        Some(t) => Some(t@),
        None => None,
    }
}

impl View for EnvironmentLayerBrowser {
    type V = LayerBrowserView;

    closed spec fn view(&self) -> LayerBrowserView {
        LayerBrowserView {
            cached: match self.cached {
                Some((q, e, d, l)) => Some((q, e, d, l@)),
                None => None,
            },
            desired: self.desired,
            submitted: self.submitted,
            accepted: match self.accepted {
                Some((q, p)) => Some((q, p.entries@, p.truncated, p.definition_revision)),
                None => None,
            },
            in_flight: self.in_flight,
            all: self.all,
            search: self.search@,
            error: opt_text(self.error),
        }
    }
}

/// The layers that dirty definitions of a space add: in the edited definition, not in the
/// saved one.
pub open spec fn added_layers(space: WorldSpaceId, definitions: Seq<DefinitionLayers>) -> Set<
    LayerId,
> {
    Set::new(
        |l: LayerId|
            exists|i: int|
                0 <= i < definitions.len() && (#[trigger] definitions[i]).space == space
                    && definitions[i].current@.contains(l) && !definitions[i].base@.contains(l),
    )
}

/// The saved memberships that hold for a query: those of the accepted answer to that query.
pub open spec fn saved_for(s: LayerBrowserView, q: LayerQuery) -> Seq<(CellCoord, LayerId)> {
    match s.accepted {
        Some((key, entries, _, _)) => if key == q {
            entries
        } else {
            Seq::empty()
        },
        None => Seq::empty(),
    }
}

/// The nearby layers for a query computed afresh.
pub open spec fn fresh_nearby(
    s: LayerBrowserView,
    q: LayerQuery,
    local: Seq<EnvironmentCellRecord>,
    definitions: Seq<DefinitionLayers>,
) -> Set<LayerId> {
    layers_of(membership_entries(q.window, items(saved_for(s, q)), local)).union(
        added_layers(q.window.space, definitions),
    )
}

/// Whether the cached nearby list was computed for a query at the given edit revisions.
pub open spec fn cache_hit(s: LayerBrowserView, q: LayerQuery, edits: u64, definitions: u64) -> bool {
    s.cached matches Some(c) && c.0 == q && c.1 == edits && c.2 == definitions
}

/// The browser's status line.
pub open spec fn browser_status(s: LayerBrowserView) -> Seq<char> {
    match s.error {
        Some(e) => "Nearby layers unavailable: "@ + e,
        None => match s.accepted {
            Some((_, _, truncated, _)) => if truncated {
                "Partial nearby results \u{b7} use All to find other layers"@
            } else {
                "Nearby \u{b7} 5 \u{d7} 5 cells around the editing focus"@
            },
            None => "Loading nearby layers\u{2026} Selected and new layers stay visible."@,
        },
    }
}

fn text(s: &str) -> (r: String)
    ensures
        r@ == s@,
{
    s.to_owned()
}

fn copy_ids(ids: &Vec<LayerId>) -> (r: Vec<LayerId>)
    ensures
        r@ == ids@,
{
    let mut r: Vec<LayerId> = Vec::new();
    let mut i: usize = 0;
    while i < ids.len()
        invariant
            i <= ids@.len(),
            r@ == ids@.take(i as int),
        decreases ids@.len() - i,
    {
        r.push(ids[i]);
        proof {
            assert(ids@.take(i + 1) =~= ids@.take(i as int).push(ids@[i as int]));
        }
        i = i + 1;
    }
    proof {
        assert(ids@.take(i as int) =~= ids@);
    }
    r
}

impl EnvironmentLayerBrowser {
    /// A browser that wants nothing yet.
    pub fn new() -> (b: Self)
        ensures
            b@.cached is None,
            b@.desired is None,
            b@.submitted is None,
            b@.accepted is None,
            !b@.in_flight,
            !b@.all,
            b@.search == Seq::<char>::empty(),
            b@.error is None,
    {
        EnvironmentLayerBrowser {
            cached: None,
            desired: None,
            submitted: None,
            accepted: None,
            in_flight: false,
            all: false,
            search: String::new(),
            error: None,
        }
    }

    /// Whether every layer is listed, not only those near the focus.
    pub fn all(&self) -> (r: bool)
        ensures
            r == self@.all,
    {
        self.all
    }

    /// Lists every layer, or only those near the focus.
    pub fn set_all(&mut self, all: bool)
        ensures
            final(self)@ == (LayerBrowserView { all, ..old(self)@ }),
    {
        self.all = all;
    }

    /// The search text.
    pub fn search(&self) -> (r: &str)
        ensures
            r@ == self@.search,
    {
        self.search.as_str()
    }

    /// Replaces the search text.
    pub fn set_search(&mut self, search: String)
        ensures
            final(self)@ == (LayerBrowserView { search: search@, ..old(self)@ }),
    {
        self.search = search;
    }

    /// Asks for the presence again: the query counts as not yet submitted and the error is
    /// dropped.
    pub fn refresh(&mut self)
        ensures
            final(self)@ == (LayerBrowserView { submitted: None, error: None, ..old(self)@ }),
    {
        self.submitted = None;
        self.error = None;
    }

    /// Whether a layer is listed: the selected layer always is; any other when every layer is
    /// listed or it is near the focus, and its lowercased name holds the lowercased search.
    pub fn includes(
        &self,
        layer: LayerId,
        name: &str,
        selected: Option<LayerId>,
        nearby: &[LayerId],
    ) -> (r: bool)
        ensures
            r == (selected == Some(layer) || ((self@.all || nearby@.contains(layer))
                && contains_text(lowercase(name@), lowercase(self@.search)))),
    {
        if selected == Some(layer) {
            return true;
        }
        if !(self.all || listed(nearby, layer)) {
            return false;
        }
        let lower_name = to_lowercase(name);
        let lower_search = to_lowercase(self.search.as_str());
        name_matches(lower_name.as_str(), lower_search.as_str())
    }

    /// Sets the wanted query; a different one drops the answer, the cache, the error and the
    /// submission of the previous one.
    pub fn set_desired(&mut self, desired: Option<LayerQuery>)
        ensures
            desired == old(self)@.desired ==> final(self)@ == old(self)@,
            desired != old(self)@.desired ==> final(self)@ == (LayerBrowserView {
                desired,
                accepted: None,
                cached: None,
                error: None,
                submitted: None,
                ..old(self)@
            }),
    {
        if self.desired != desired {
            self.desired = desired;
            self.accepted = None;
            self.cached = None;
            self.error = None;
            self.submitted = None;
        }
    }

    /// Takes in the worker's answer to a query. Only the answer to the wanted query counts:
    /// it is accepted when it was read against the query's definition revision, and reported
    /// otherwise.
    pub fn receive(&mut self, query: LayerQuery, result: Result<LayerPresence, String>)
        ensures
            old(self)@.desired != Some(query) ==> final(self)@ == (LayerBrowserView {
                in_flight: false,
                ..old(self)@
            }),
            old(self)@.desired == Some(query) ==> final(self)@ == (match result {
                Ok(p) => if p.definition_revision == query.definition_revision {
                    LayerBrowserView {
                        in_flight: false,
                        cached: None,
                        accepted: Some((query, p.entries@, p.truncated, p.definition_revision)),
                        ..old(self)@
                    }
                } else {
                    LayerBrowserView {
                        in_flight: false,
                        cached: None,
                        error: Some(
                            "Source changed during discovery; move the editing focus to refresh"@,
                        ),
                        ..old(self)@
                    }
                },
                Err(e) => LayerBrowserView {
                    in_flight: false,
                    cached: None,
                    error: Some(e@),
                    ..old(self)@
                },
            }),
    {
        self.in_flight = false;
        if self.desired == Some(query) {
            self.cached = None;
            match result {
                Ok(p) => {
                    if p.definition_revision == query.definition_revision {
                        self.accepted = Some((query, p));
                    } else {
                        self.error = Some(
                            text(
                                "Source changed during discovery; move the editing focus to refresh",
                            ),
                        );
                    }
                },
                Err(e) => {
                    self.error = Some(e);
                },
            }
        }
    }

    /// The query to hand the worker now: the wanted one, unless a query is in flight or this
    /// one was submitted already.
    pub fn due_query(&self) -> (r: Option<LayerQuery>)
        ensures
            r == (match self@.desired {
                Some(q) => if self@.in_flight || self@.submitted == Some(q) {
                    None
                } else {
                    Some(q)
                },
                None => None,
            }),
    {
        match self.desired {
            Some(q) => {
                if self.in_flight || self.submitted == Some(q) {
                    None
                } else {
                    Some(q)
                }
            },
            None => None,
        }
    }

    /// Records that the worker could not be started for a query: the error is shown and the
    /// query is not asked again until a refresh.
    pub fn worker_failed(&mut self, query: LayerQuery, error: String)
        ensures
            final(self)@ == (LayerBrowserView {
                error: Some(error@),
                submitted: Some(query),
                ..old(self)@
            }),
    {
        self.error = Some(error);
        self.submitted = Some(query);
    }

    /// Records whether the worker took a query; a full queue leaves it due.
    pub fn submitted(&mut self, query: LayerQuery, sent: bool)
        ensures
            sent ==> final(self)@ == (LayerBrowserView {
                submitted: Some(query),
                in_flight: true,
                ..old(self)@
            }),
            !sent ==> final(self)@ == old(self)@,
    {
        if sent {
            self.submitted = Some(query);
            self.in_flight = true;
        }
    }

    /// The nearby layers of a space: nothing unless the wanted query is of that space; the
    /// cached list while the query and both edit revisions are unchanged; otherwise the layers
    /// with coverage in the window (saved membership of the accepted answer, replaced cell by
    /// cell by the local records) and the layers that dirty definitions of the space add, which
    /// are then cached. No layer occurs twice.
    pub fn nearby(
        &mut self,
        space: WorldSpaceId,
        edit_revision: u64,
        definition_edit_revision: u64,
        local: &[EnvironmentCellRecord],
        definitions: &[DefinitionLayers],
    ) -> (r: Vec<LayerId>)
        ensures
            match old(self)@.desired {
                Some(q) => if q.window.space != space {
                    r@.len() == 0 && final(self)@ == old(self)@
                } else if cache_hit(old(self)@, q, edit_revision, definition_edit_revision) {
                    r@ == (old(self)@.cached->0).3 && final(self)@ == old(self)@
                } else {
                    &&& items(r@) == fresh_nearby(old(self)@, q, local@, definitions@)
                    &&& r@.no_duplicates()
                    &&& final(self)@ == (LayerBrowserView {
                        cached: Some((q, edit_revision, definition_edit_revision, r@)),
                        ..old(self)@
                    })
                },
                None => r@.len() == 0 && final(self)@ == old(self)@,
            },
    {
        let q = match self.desired {
            Some(q) => {
                if q.window.space == space {
                    q
                } else {
                    return Vec::new();
                }
            },
            None => {
                return Vec::new();
            },
        };
        match &self.cached {
            Some((key, edits, defs, layers)) => {
                if *key == q && *edits == edit_revision && *defs == definition_edit_revision {
                    return copy_ids(layers);
                }
            },
            None => {},
        }
        let none: Vec<(CellCoord, LayerId)> = Vec::new();
        let mut result = match &self.accepted {
            Some((key, p)) => {
                if *key == q {
                    membership(q.window, p.entries.as_slice(), local)
                } else {
                    membership(q.window, none.as_slice(), local)
                }
            },
            None => membership(q.window, none.as_slice(), local),
        };
        proof {
            assert(none@ =~= Seq::<(CellCoord, LayerId)>::empty());
        }
        let ghost found = items(result@);
        let mut i: usize = 0;
        while i < definitions.len()
            invariant
                i <= definitions@.len(),
                result@.no_duplicates(),
                items(result@) == found.union(added_layers(space, definitions@.take(i as int))),
            decreases definitions@.len() - i,
        {
            let d = &definitions[i];
            let ghost before = items(result@);
            if d.space == space {
                let mut j: usize = 0;
                while j < d.current.len()
                    invariant
                        j <= d.current@.len(),
                        result@.no_duplicates(),
                        items(result@) == before.union(
                            Set::new(
                                |l: LayerId|
                                    exists|k: int|
                                        0 <= k < j && d.current@[k] == l && !d.base@.contains(l),
                            ),
                        ),
                    decreases d.current@.len() - j,
                {
                    let l = d.current[j];
                    let ghost old_result = result@;
                    let fresh = !listed(d.base.as_slice(), l);
                    let present = listed(result.as_slice(), l);
                    if fresh && !present {
                        result.push(l);
                    }
                    proof {
                        let s_j = Set::new(
                            |y: LayerId|
                                exists|k: int| 0 <= k < j && d.current@[k] == y && !d.base@.contains(y),
                        );
                        let s_next = Set::new(
                            |y: LayerId|
                                exists|k: int|
                                    0 <= k < j + 1 && d.current@[k] == y && !d.base@.contains(y),
                        );
                        assert(items(old_result) =~= before.union(s_j));
                        assert(l == d.current@[j as int]);
                        assert(fresh == !d.base@.contains(l));
                        assert(present == old_result.contains(l));
                        assert(fresh && !present ==> result@ == old_result.push(l));
                        assert(!(fresh && !present) ==> result@ == old_result);
                        assert forall|x: LayerId|
                            items(result@).contains(x) <==> before.union(s_next).contains(x) by {
                            if result@.contains(x) {
                                if old_result.contains(x) {
                                    assert(items(old_result).contains(x));
                                    if s_j.contains(x) {
                                        let k = choose|k: int|
                                            0 <= k < j && d.current@[k] == x && !d.base@.contains(x);
                                        assert(0 <= k < j + 1 && d.current@[k] == x && !d.base@.contains(x));
                                        assert(s_next.contains(x));
                                    }
                                } else {
                                    assert(x == l && fresh);
                                    assert(0 <= j < j + 1 && d.current@[j as int] == x && !d.base@.contains(x));
                                    assert(s_next.contains(x));
                                }
                            }
                            if before.union(s_next).contains(x) {
                                if before.contains(x) {
                                    assert(items(old_result).contains(x));
                                } else {
                                    let k = choose|k: int|
                                        0 <= k < j + 1 && d.current@[k] == x && !d.base@.contains(x);
                                    if k < j {
                                        assert(s_j.contains(x));
                                        assert(items(old_result).contains(x));
                                    } else {
                                        assert(x == l && fresh);
                                    }
                                }
                                assert(result@.contains(x));
                            }
                        }
                        assert(items(result@) =~= before.union(s_next));
                        if fresh && !present {
                            assert forall|a: int, b: int|
                                0 <= a < result@.len() && 0 <= b < result@.len() && a != b implies result@[a]
                                    != result@[b] by {
                                if a == result@.len() - 1 {
                                    assert(old_result[b] == result@[b]);
                                }
                                if b == result@.len() - 1 {
                                    assert(old_result[a] == result@[a]);
                                }
                            }
                        }
                    }
                    j = j + 1;
                }
                proof {
                    assert(d.current@.take(j as int) =~= d.current@);
                    assert(Set::new(
                        |l: LayerId|
                            exists|k: int|
                                0 <= k < j && d.current@[k] == l && !d.base@.contains(l),
                    ) =~= Set::new(
                        |l: LayerId| d.current@.contains(l) && !d.base@.contains(l),
                    ));
                }
            }
            proof {
                let step = definitions@.take(i + 1);
                assert(step =~= definitions@.take(i as int).push(definitions@[i as int]));
                assert(added_layers(space, step) =~= added_layers(
                    space,
                    definitions@.take(i as int),
                ).union(
                    if definitions@[i as int].space == space {
                        Set::new(
                            |l: LayerId|
                                definitions@[i as int].current@.contains(l)
                                    && !definitions@[i as int].base@.contains(l),
                        )
                    } else {
                        Set::empty()
                    },
                )) by {
                    assert forall|l: LayerId|
                        added_layers(space, step).contains(l) implies added_layers(
                            space,
                            definitions@.take(i as int),
                        ).contains(l) || (definitions@[i as int].space == space
                            && definitions@[i as int].current@.contains(l)
                            && !definitions@[i as int].base@.contains(l)) by {
                        let k = choose|k: int|
                            0 <= k < step.len() && (#[trigger] step[k]).space == space
                                && step[k].current@.contains(l) && !step[k].base@.contains(l);
                        if k < i {
                            assert(definitions@.take(i as int)[k] == step[k]);
                        }
                    }
                    assert forall|l: LayerId|
                        added_layers(space, definitions@.take(i as int)).contains(l) implies added_layers(
                            space,
                            step,
                        ).contains(l) by {
                        let k = choose|k: int|
                            0 <= k < i && (#[trigger] definitions@.take(i as int)[k]).space
                                == space && definitions@.take(i as int)[k].current@.contains(l)
                                && !definitions@.take(i as int)[k].base@.contains(l);
                        assert(step[k] == definitions@.take(i as int)[k]);
                    }
                    assert forall|l: LayerId|
                        definitions@[i as int].space == space
                            && definitions@[i as int].current@.contains(l)
                            && !definitions@[i as int].base@.contains(l) implies added_layers(
                            space,
                            step,
                        ).contains(l) by {
                        assert(step[i as int] == definitions@[i as int]);
                    }
                }
            }
            i = i + 1;
        }
        proof {
            assert(definitions@.take(i as int) =~= definitions@);
        }
        self.cached = Some((q, edit_revision, definition_edit_revision, copy_ids(&result)));
        result
    }

    /// The status line.
    pub fn status(&self) -> (r: String)
        ensures
            r@ == browser_status(self@),
    {
        match &self.error {
            Some(e) => {
                let mut m = text("Nearby layers unavailable: ");
                m.append(e.as_str());
                m
            },
            None => match &self.accepted {
                Some((_, p)) => {
                    if p.truncated {
                        text("Partial nearby results \u{b7} use All to find other layers")
                    } else {
                        text("Nearby \u{b7} 5 \u{d7} 5 cells around the editing focus")
                    }
                },
                None => text("Loading nearby layers\u{2026} Selected and new layers stay visible."),
            },
        }
    }
}

} // verus!
