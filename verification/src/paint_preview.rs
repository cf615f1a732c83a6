//! The accepted products of the bounded, asynchronous environment preview. A compiled cell is
//! accepted only while its dependency stamp still matches the draft; cells that must switch
//! together (a relief change, a new vegetation catalog) are staged and installed at once.

use vstd::prelude::*;

use crate::assoc::{as_map, has_key, keys_unique};
use crate::ranked::{law_sort_by_rank_orders, sort_by_rank, sort_ranked, Rank};
use crate::live_preview::{in_region, CellRegion};
use crate::stamps::{blake3_digest, dependency_message, dependency_stamp, desired_message, desired_stamp, Stamp};
use vstd::string::StringSliceAdditionalSpecFns;
use crate::world::{CellCoord, WorldSpaceId};

verus! {

/// At most this many cells are previewed.
pub const MAX_PREVIEW_CELLS: usize = 256;

/// At most this many cells go into one compile job.
pub const CELLS_PER_JOB: usize = 4;

/// At most this many product bytes are retained, accepted and staged together.
pub const MAX_PREVIEW_BYTES: usize = 33554432;

/// At most this many objects are previewed.
pub const MAX_PREVIEW_OBJECTS: usize = 4096;

/// A previewed cell.
pub type PreviewKey = (WorldSpaceId, CellCoord);

/// A compiled cell, with the bytes and objects it is accounted with.
#[derive(Clone, Debug)]
pub struct PreviewProduct<P> {
    pub product: P,
    pub bytes: usize,
    pub objects: usize,
}

/// The abstract state of the preview.
pub struct PreviewView<P, C> {
    pub desired: Seq<(PreviewKey, Stamp)>,
    pub accepted: Seq<(PreviewKey, (Stamp, PreviewProduct<P>))>,
    pub staging: Option<Seq<(PreviewKey, (Stamp, PreviewProduct<P>))>>,
    pub failed: Seq<(PreviewKey, Stamp)>,
    pub active_catalog: Option<C>,
    pub pending_catalog: Option<C>,
    pub in_flight: bool,
    pub revision: u64,
    pub error: Option<Seq<char>>,
}

/// The preview's products and the stamps they answer.
pub struct EnvironmentPreview<P, C> {
    desired: Vec<(PreviewKey, Stamp)>,
    accepted: Vec<(PreviewKey, (Stamp, PreviewProduct<P>))>,
    staging: Option<Vec<(PreviewKey, (Stamp, PreviewProduct<P>))>>,
    failed: Vec<(PreviewKey, Stamp)>,
    active_catalog: Option<C>,
    pending_catalog: Option<C>,
    in_flight: bool,
    revision: u64,
    error: Option<String>,
}

/// The view of an optional message.
pub open spec fn opt_text(e: Option<String>) -> Option<Seq<char>> {
    match e {
        Some(t) => Some(t@),
        None => None,
    }
}

impl<P, C> View for EnvironmentPreview<P, C> {
    type V = PreviewView<P, C>;

    closed spec fn view(&self) -> PreviewView<P, C> {
        PreviewView {
            desired: self.desired@,
            accepted: self.accepted@,
            staging: match self.staging {
                Some(v) => Some(v@),
                None => None,
            },
            failed: self.failed@,
            active_catalog: self.active_catalog,
            pending_catalog: self.pending_catalog,
            in_flight: self.in_flight,
            revision: self.revision,
            error: opt_text(self.error),
        }
    }
}

/// The sort key of a cell: world space, then x, then z.
pub open spec fn key_order(k: PreviewKey) -> int {
    k.0.0 as int * 0x1_0000_0000_0000_0000 + (k.1.x as int + 0x8000_0000) * 0x1_0000_0000 + (
    k.1.z as int + 0x8000_0000)
}

/// The desired cells are in ascending order of key, as a sorted map holds them.
pub open spec fn keys_ascending<V>(s: Seq<(PreviewKey, V)>) -> bool {
    forall|i: int, j: int| 0 <= i < j < s.len() ==> key_order(s[i].0) < key_order(s[j].0)
}

/// The products a result lands in: the staging set while a swap is prepared, the accepted set
/// otherwise.
pub open spec fn products_of<P, C>(s: PreviewView<P, C>) -> Seq<(PreviewKey, (Stamp, PreviewProduct<P>))> {
    match s.staging {
        Some(st) => st,
        None => s.accepted,
    }
}

/// Whether the products answer a cell's stamp.
pub open spec fn answered<P>(products: Seq<(PreviewKey, (Stamp, PreviewProduct<P>))>, k: PreviewKey, stamp: Stamp) -> bool {
    has_key(products, k) && as_map(products)[k].0 == stamp
}

/// The number of desired cells whose stamp the products do not answer yet.
pub open spec fn pending_count<P>(
    desired: Seq<(PreviewKey, Stamp)>,
    products: Seq<(PreviewKey, (Stamp, PreviewProduct<P>))>,
) -> nat
    decreases desired.len(),
{
    if desired.len() == 0 {
        0
    } else {
        pending_count(desired.drop_last(), products) + if answered(
            products,
            desired.last().0,
            desired.last().1,
        ) {
            0nat
        } else {
            1nat
        }
    }
}

/// The revision after a visible change: one more, wrapping, never zero.
pub open spec fn bumped(r: u64) -> u64 {
    if r == u64::MAX {
        1
    } else {
        (r + 1) as u64
    }
}

/// The internal invariant: no cell occurs twice in any list, and the desired cells are in key
/// order.
pub open spec fn preview_inv<P, C>(s: PreviewView<P, C>) -> bool {
    &&& keys_unique(s.desired)
    &&& keys_ascending(s.desired)
    &&& keys_unique(s.accepted)
    &&& (s.staging matches Some(st) ==> keys_unique(st))
    &&& keys_unique(s.failed)
}

/// The preview after installing a complete staging set: once every desired cell is answered,
/// the staged products become visible together with the pending catalog.
pub open spec fn installed<P, C>(s: PreviewView<P, C>) -> PreviewView<P, C> {
    if s.staging is Some && s.desired.len() > 0 && pending_count(s.desired, products_of(s)) == 0 {
        PreviewView {
            accepted: s.staging->0,
            staging: None,
            active_catalog: if s.pending_catalog is Some {
                s.pending_catalog
            } else {
                s.active_catalog
            },
            pending_catalog: None,
            revision: bumped(s.revision),
            ..s
        }
    } else {
        s
    }
}

/// Whether two stamps are equal.
pub fn same_stamp(a: &Stamp, b: &Stamp) -> (r: bool)
    ensures
        r == (*a == *b),
{
    let mut i: usize = 0;
    while i < 32
        invariant
            i <= 32,
            forall|k: int| 0 <= k < i ==> a[k] == b[k],
        decreases 32 - i,
    {
        if a[i] != b[i] {
            return false;
        }
        i = i + 1;
    }
    proof {
        assert(*a =~= *b);
    }
    true
}

fn same_key(a: PreviewKey, b: PreviewKey) -> (r: bool)
    ensures
        r == (a == b),
{
    a.0 == b.0 && a.1 == b.1
}

/// The position of a key in an association list of previewed cells.
fn find<V>(s: &Vec<(PreviewKey, V)>, k: PreviewKey) -> (r: Option<usize>)
    ensures
        match r {
            Some(i) => i < s@.len() && s@[i as int].0 == k,
            None => !has_key(s@, k),
        },
{
    let mut i: usize = 0;
    while i < s.len()
        invariant
            i <= s@.len(),
            forall|j: int| 0 <= j < i ==> s@[j].0 != k,
        decreases s@.len() - i,
    {
        if same_key(s[i].0, k) {
            return Some(i);
        }
        i = i + 1;
    }
    None
}

impl<P, C> EnvironmentPreview<P, C> {
    /// The internal invariant, which every operation keeps.
    pub open spec fn wf(&self) -> bool {
        preview_inv(self@)
    }

    /// An empty preview.
    pub fn new() -> (s: Self)
        ensures
            s.wf(),
            s@.desired.len() == 0 && s@.accepted.len() == 0 && s@.staging is None && s@.failed.len()
                == 0,
            s@.active_catalog is None && s@.pending_catalog is None,
            !s@.in_flight && s@.revision == 0 && s@.error is None,
    {
        EnvironmentPreview {
            desired: Vec::new(),
            accepted: Vec::new(),
            staging: None,
            failed: Vec::new(),
            active_catalog: None,
            pending_catalog: None,
            in_flight: false,
            revision: 0,
            error: None,
        }
    }

    /// The visible product of a cell.
    pub fn cell(&self, key: PreviewKey) -> (r: Option<&P>)
        requires
            self.wf(),
        ensures
            r is Some <==> has_key(self@.accepted, key),
            r matches Some(p) ==> *p == as_map(self@.accepted)[key].1.product,
    {
        match find(&self.accepted, key) {
            Some(i) => {
                proof {
                    crate::assoc::lemma_as_map_at(self.accepted@, i as int);
                }
                Some(&self.accepted[i].1.1.product)
            },
            None => None,
        }
    }

    /// The visible vegetation catalog.
    pub fn catalog(&self) -> (r: Option<&C>)
        ensures
            r matches Some(c) ==> self@.active_catalog == Some(*c),
            r is None <==> self@.active_catalog is None,
    {
        match &self.active_catalog {
            Some(c) => Some(c),
            None => None,
        }
    }

    /// The revision of what is visible; it changes whenever visible products change.
    pub fn revision(&self) -> (r: u64)
        ensures
            r == self@.revision,
    {
        self.revision
    }

    /// The preview's error message.
    pub fn error(&self) -> (r: Option<&str>)
        ensures
            match r {
                Some(e) => self@.error == Some(e@),
                None => self@.error is None,
            },
    {
        match &self.error {
            Some(e) => Some(e.as_str()),
            None => None,
        }
    }

    /// Whether a compile job is at the worker.
    pub fn in_flight(&self) -> (r: bool)
        ensures
            r == self@.in_flight,
    {
        self.in_flight
    }

    /// Whether a catalog swap is being staged.
    pub fn staging(&self) -> (r: bool)
        ensures
            r == self@.staging is Some,
    {
        self.staging.is_some()
    }

    fn bump(&mut self)
        ensures
            final(self)@ == (PreviewView { revision: bumped(old(self)@.revision), ..old(self)@ }),
    {
        let next = self.revision.wrapping_add(1);
        self.revision = if next < 1 {
            1
        } else {
            next
        };
    }

    fn answers(
        products: &Vec<(PreviewKey, (Stamp, PreviewProduct<P>))>,
        key: PreviewKey,
        stamp: &Stamp,
    ) -> (r: bool)
        requires
            keys_unique(products@),
        ensures
            r == answered(products@, key, *stamp),
    {
        match find(products, key) {
            Some(i) => {
                proof {
                    crate::assoc::lemma_as_map_at(products@, i as int);
                }
                same_stamp(&products[i].1.0, stamp)
            },
            None => false,
        }
    }

    /// The number of desired cells whose stamp the products (staged while a swap is prepared,
    /// visible otherwise) do not answer yet.
    pub fn pending(&self) -> (n: usize)
        requires
            self.wf(),
        ensures
            n == pending_count(self@.desired, products_of(self@)),
    {
        let products = match &self.staging {
            Some(st) => st,
            None => &self.accepted,
        };
        let mut n: usize = 0;
        let mut i: usize = 0;
        while i < self.desired.len()
            invariant
                i <= self.desired@.len(),
                products@ == products_of(self@),
                keys_unique(products@),
                n == pending_count(self.desired@.take(i as int), products@),
                n <= i,
            decreases self.desired@.len() - i,
        {
            proof {
                assert(self.desired@.take(i + 1).drop_last() =~= self.desired@.take(i as int));
            }
            if !Self::answers(products, self.desired[i].0, &self.desired[i].1) {
                n = n + 1;
            }
            i = i + 1;
        }
        proof {
            assert(self.desired@.take(i as int) =~= self.desired@);
        }
        n
    }

    /// Installs a complete staging set: once every desired cell is answered the staged products
    /// become visible, with the pending catalog.
    pub fn install_staging(&mut self)
        requires
            old(self).wf(),
        ensures
            final(self).wf(),
            final(self)@ == installed(old(self)@),
    {
        if self.staging.is_some() && self.desired.len() > 0 && self.pending() == 0 {
            let staged = self.staging.take();
            match staged {
                Some(st) => {
                    self.accepted = st;
                },
                None => {},
            }
            match self.pending_catalog.take() {
                Some(catalog) => {
                    self.active_catalog = Some(catalog);
                },
                None => {},
            }
            self.bump();
        }
    }
}

/// The list with the value of a key replaced in place, or the pair appended.
pub open spec fn put<V>(s: Seq<(PreviewKey, V)>, k: PreviewKey, v: V) -> Seq<(PreviewKey, V)> {
    if has_key(s, k) {
        s.update(choose|i: int| 0 <= i < s.len() && s[i].0 == k, (k, v))
    } else {
        s.push((k, v))
    }
}

/// The list without the pair of a key.
pub open spec fn drop_key<V>(s: Seq<(PreviewKey, V)>, k: PreviewKey) -> Seq<(PreviewKey, V)> {
    if has_key(s, k) {
        s.remove(choose|i: int| 0 <= i < s.len() && s[i].0 == k)
    } else {
        s
    }
}

proof fn lemma_choose_index<V>(s: Seq<(PreviewKey, V)>, i: int)
    requires
        keys_unique(s),
        0 <= i < s.len(),
    ensures
        has_key(s, s[i].0),
        (choose|j: int| 0 <= j < s.len() && s[j].0 == s[i].0) == i,
{
    assert(0 <= i < s.len() && s[i].0 == s[i].0);
}

fn put_entry<V>(v: &mut Vec<(PreviewKey, V)>, k: PreviewKey, val: V)
    requires
        keys_unique(old(v)@),
    ensures
        keys_unique(final(v)@),
        final(v)@ == put(old(v)@, k, val),
{
    match find(v, k) {
        Some(i) => {
            proof {
                lemma_choose_index(v@, i as int);
                crate::assoc::lemma_as_map_update(v@, i as int, val);
            }
            v.set(i, (k, val));
        },
        None => {
            proof {
                crate::assoc::lemma_as_map_push(v@, k, val);
            }
            v.push((k, val));
        },
    }
}

fn remove_entry<V>(v: &mut Vec<(PreviewKey, V)>, k: PreviewKey)
    requires
        keys_unique(old(v)@),
    ensures
        keys_unique(final(v)@),
        final(v)@ == drop_key(old(v)@, k),
{
    match find(v, k) {
        Some(i) => {
            proof {
                lemma_choose_index(v@, i as int);
                crate::assoc::lemma_as_map_remove(v@, i as int);
            }
            v.remove(i);
        },
        None => {},
    }
}

/// The sum of the bytes of the products, leaving out a cell unless `all`.
pub open spec fn bytes_except<P>(s: Seq<(PreviewKey, (Stamp, PreviewProduct<P>))>, k: PreviewKey, all: bool) -> int
    decreases s.len(),
{
    if s.len() == 0 {
        0
    } else {
        bytes_except(s.drop_last(), k, all) + if all || s.last().0 != k {
            s.last().1.1.bytes as int
        } else {
            0int
        }
    }
}

/// The sum of the objects of the products, leaving out a cell.
pub open spec fn objects_except<P>(s: Seq<(PreviewKey, (Stamp, PreviewProduct<P>))>, k: PreviewKey) -> int
    decreases s.len(),
{
    if s.len() == 0 {
        0
    } else {
        objects_except(s.drop_last(), k) + if s.last().0 != k {
            s.last().1.1.objects as int
        } else {
            0int
        }
    }
}

/// Whether taking a product for a cell would exceed the object or byte budget: the objects of
/// all other products plus its own, or the bytes of the visible products (all of them while a
/// swap is staged, the others otherwise), the other staged products and its own.
pub open spec fn over_budget<P, C>(s: PreviewView<P, C>, k: PreviewKey, p: PreviewProduct<P>) -> bool {
    objects_except(products_of(s), k) + p.objects > MAX_PREVIEW_OBJECTS || bytes_except(
        s.accepted,
        k,
        s.staging is Some,
    ) + match s.staging {
        Some(st) => bytes_except(st, k, false),
        None => 0int,
    } + p.bytes > MAX_PREVIEW_BYTES
}

/// The message of a result that exceeds the budget.
pub open spec fn budget_message() -> Seq<char> {
    "Environment preview exceeds its memory or 4,096-object budget; reduce density, resident area or output resolution."@
}

/// The preview after one compiled cell of a result: taken only when its stamp is the desired
/// one; refused and marked failed when over budget; staged while a swap is prepared, made
/// visible otherwise.
pub open spec fn item_step<P, C>(s: PreviewView<P, C>, k: PreviewKey, stamp: Stamp, p: PreviewProduct<P>) -> PreviewView<P, C> {
    if has_key(s.desired, k) && as_map(s.desired)[k] == stamp {
        if over_budget(s, k, p) {
            PreviewView { failed: put(s.failed, k, stamp), error: Some(budget_message()), ..s }
        } else {
            match s.staging {
                Some(st) => PreviewView {
                    staging: Some(put(st, k, (stamp, p))),
                    failed: drop_key(s.failed, k),
                    ..s
                },
                None => PreviewView {
                    accepted: put(s.accepted, k, (stamp, p)),
                    revision: bumped(s.revision),
                    failed: drop_key(s.failed, k),
                    ..s
                },
            }
        }
    } else {
        s
    }
}

/// The stamp a job gave a cell: that of its first entry.
pub open spec fn stamp_for(cells: Seq<(CellCoord, Stamp)>, c: CellCoord) -> Stamp
    decreases cells.len(),
{
    if cells.len() == 0 {
        arbitrary()
    } else if cells[0].0 == c {
        cells[0].1
    } else {
        stamp_for(cells.drop_first(), c)
    }
}

/// The preview after the compiled cells of a result, in order.
pub open spec fn items_applied<P, C>(
    s: PreviewView<P, C>,
    cells: Seq<(CellCoord, Stamp)>,
    items: Seq<(PreviewKey, PreviewProduct<P>)>,
) -> PreviewView<P, C>
    decreases items.len(),
{
    if items.len() == 0 {
        s
    } else {
        let prev = items_applied(s, cells, items.drop_last());
        item_step(prev, items.last().0, stamp_for(cells, items.last().0.1), items.last().1)
    }
}

/// The preview after a failed job: each of its cells still desired with the job's stamp is
/// marked failed, with the message.
pub open spec fn failures_applied<P, C>(
    s: PreviewView<P, C>,
    space: WorldSpaceId,
    cells: Seq<(CellCoord, Stamp)>,
    message: Seq<char>,
) -> PreviewView<P, C>
    decreases cells.len(),
{
    if cells.len() == 0 {
        s
    } else {
        let prev = failures_applied(s, space, cells.drop_last(), message);
        let k = (space, cells.last().0);
        if has_key(prev.desired, k) && as_map(prev.desired)[k] == cells.last().1 {
            PreviewView { failed: put(prev.failed, k, cells.last().1), error: Some(message), ..prev }
        } else {
            prev
        }
    }
}

/// The preview after a job's result.
pub open spec fn accepted_result<P, C>(
    s: PreviewView<P, C>,
    space: WorldSpaceId,
    cells: Seq<(CellCoord, Stamp)>,
    result: Result<Seq<(PreviewKey, PreviewProduct<P>)>, Seq<char>>,
    has_plan: bool,
) -> PreviewView<P, C> {
    let s0 = PreviewView { in_flight: false, ..s };
    match result {
        Ok(items) => {
            let s1 = installed(items_applied(s0, cells, items));
            if s1.failed.len() == 0 && has_plan {
                PreviewView { error: None, ..s1 }
            } else {
                s1
            }
        },
        Err(m) => failures_applied(s0, space, cells, m),
    }
}

/// Every compiled cell of a result belongs to a cell of its job.
pub open spec fn items_in_job<P>(cells: Seq<(CellCoord, Stamp)>, items: Seq<(PreviewKey, PreviewProduct<P>)>) -> bool {
    forall|j: int| 0 <= j < items.len() ==> exists|i: int| 0 <= i < cells.len() && cells[i].0 == (#[trigger] items[j]).0.1
}

fn stamp_in(cells: &[(CellCoord, Stamp)], c: CellCoord) -> (r: Stamp)
    requires
        exists|i: int| 0 <= i < cells@.len() && cells@[i].0 == c,
    ensures
        r == stamp_for(cells@, c),
{
    let mut i: usize = 0;
    assert(cells@.skip(0) =~= cells@);
    while i < cells.len()
        invariant
            i <= cells@.len(),
            exists|q: int| i <= q < cells@.len() && cells@[q].0 == c,
            stamp_for(cells@, c) == stamp_for(cells@.skip(i as int), c),
        decreases cells@.len() - i,
    {
        proof {
            assert(cells@.skip(i as int).drop_first() =~= cells@.skip(i + 1));
            assert(cells@.skip(i as int)[0] == cells@[i as int]);
        }
        if cells[i].0 == c {
            return cells[i].1;
        }
        i = i + 1;
    }
    proof {
        assert(false);
    }
    cells[0].1
}

/// A sum, saturating at the largest `usize`.
pub open spec fn sat(v: int) -> int {
    if v <= usize::MAX {
        v
    } else {
        usize::MAX as int
    }
}

proof fn lemma_bytes_nonnegative<P>(s: Seq<(PreviewKey, (Stamp, PreviewProduct<P>))>, k: PreviewKey, all: bool)
    ensures
        bytes_except(s, k, all) >= 0,
        objects_except(s, k) >= 0,
    decreases s.len(),
{
    if s.len() > 0 {
        lemma_bytes_nonnegative(s.drop_last(), k, all);
    }
}

fn bytes_sum<P>(v: &Vec<(PreviewKey, (Stamp, PreviewProduct<P>))>, k: PreviewKey, all: bool) -> (n: usize)
    ensures
        n == sat(bytes_except(v@, k, all)),
{
    let mut n: usize = 0;
    let mut i: usize = 0;
    while i < v.len()
        invariant
            i <= v@.len(),
            n == sat(bytes_except(v@.take(i as int), k, all)),
            bytes_except(v@.take(i as int), k, all) >= 0,
        decreases v@.len() - i,
    {
        proof {
            assert(v@.take(i + 1).drop_last() =~= v@.take(i as int));
        }
        if all || !same_key(v[i].0, k) {
            n = n.saturating_add(v[i].1.1.bytes);
        }
        i = i + 1;
    }
    proof {
        assert(v@.take(i as int) =~= v@);
    }
    n
}

fn objects_sum<P>(v: &Vec<(PreviewKey, (Stamp, PreviewProduct<P>))>, k: PreviewKey) -> (n: usize)
    ensures
        n == sat(objects_except(v@, k)),
{
    let mut n: usize = 0;
    let mut i: usize = 0;
    while i < v.len()
        invariant
            i <= v@.len(),
            n == sat(objects_except(v@.take(i as int), k)),
            objects_except(v@.take(i as int), k) >= 0,
        decreases v@.len() - i,
    {
        proof {
            assert(v@.take(i + 1).drop_last() =~= v@.take(i as int));
        }
        if !same_key(v[i].0, k) {
            n = n.saturating_add(v[i].1.1.objects);
        }
        i = i + 1;
    }
    proof {
        assert(v@.take(i as int) =~= v@);
    }
    n
}

impl<P, C> EnvironmentPreview<P, C> {
    fn desired_stamp_is(&self, key: PreviewKey, stamp: &Stamp) -> (r: bool)
        requires
            self.wf(),
        ensures
            r == (has_key(self@.desired, key) && as_map(self@.desired)[key] == *stamp),
    {
        match find(&self.desired, key) {
            Some(i) => {
                proof {
                    crate::assoc::lemma_as_map_at(self.desired@, i as int);
                }
                same_stamp(&self.desired[i].1, stamp)
            },
            None => false,
        }
    }

    fn take_item(&mut self, key: PreviewKey, stamp: Stamp, product: PreviewProduct<P>)
        requires
            old(self).wf(),
        ensures
            final(self).wf(),
            final(self)@ == item_step(old(self)@, key, stamp, product),
    {
        if !self.desired_stamp_is(key, &stamp) {
            return;
        }
        let objects = match &self.staging {
            Some(st) => objects_sum(st, key),
            None => objects_sum(&self.accepted, key),
        };
        let visible = bytes_sum(&self.accepted, key, self.staging.is_some());
        let staged = match &self.staging {
            Some(st) => bytes_sum(st, key, false),
            None => 0,
        };
        proof {
            lemma_bytes_nonnegative(self@.accepted, key, self@.staging is Some);
            lemma_bytes_nonnegative(products_of(self@), key, false);
            if self@.staging is Some {
                lemma_bytes_nonnegative(self@.staging->0, key, false);
            }
        }
        if objects.saturating_add(product.objects) > MAX_PREVIEW_OBJECTS || visible.saturating_add(
            staged,
        ).saturating_add(product.bytes) > MAX_PREVIEW_BYTES {
            put_entry(&mut self.failed, key, stamp);
            self.error = Some(
                String::from_str(
                    "Environment preview exceeds its memory or 4,096-object budget; reduce density, resident area or output resolution.",
                ),
            );
            return;
        }
        match self.staging.take() {
            Some(mut st) => {
                put_entry(&mut st, key, (stamp, product));
                self.staging = Some(st);
            },
            None => {
                put_entry(&mut self.accepted, key, (stamp, product));
                self.bump();
            },
        }
        remove_entry(&mut self.failed, key);
    }

    /// Takes in the result of a compile job for cells of a space, each with the stamp the job
    /// was given. A compiled cell is taken only while the draft still desires its stamp, and
    /// within the object and byte budgets (otherwise it is marked failed); it is staged while a
    /// swap is prepared and becomes visible otherwise; a complete staging set is then
    /// installed, and the error cleared when nothing failed and a compile plan exists. A failed
    /// job marks its still-desired cells failed with its message.
    pub fn accept_batch(
        &mut self,
        space: WorldSpaceId,
        cells: &[(CellCoord, Stamp)],
        result: Result<Vec<(PreviewKey, PreviewProduct<P>)>, String>,
        has_plan: bool,
    )
        requires
            old(self).wf(),
            result matches Ok(items) ==> items_in_job(cells@, items@),
        ensures
            final(self).wf(),
            final(self)@ == accepted_result(
                old(self)@,
                space,
                cells@,
                match result {
                    Ok(items) => Ok(items@),
                    Err(e) => Err(e@),
                },
                has_plan,
            ),
    {
        self.in_flight = false;
        let ghost s0 = self@;
        match result {
            Ok(items) => {
                let mut items = items;
                let ghost all = items@;
                let ghost mut n: int = 0;
                while items.len() > 0
                    invariant
                        self.wf(),
                        0 <= n <= all.len(),
                        items@ == all.skip(n),
                        items_in_job(cells@, all),
                        self@ == items_applied(s0, cells@, all.take(n)),
                    decreases items@.len(),
                {
                    let (key, product) = items.remove(0);
                    proof {
                        assert(all[n] == (key, product));
                        assert(all.take(n + 1).drop_last() =~= all.take(n));
                        assert(all.skip(n + 1) =~= all.skip(n).drop_first());
                    }
                    let stamp = stamp_in(cells, key.1);
                    self.take_item(key, stamp, product);
                    proof {
                        n = n + 1;
                    }
                }
                proof {
                    assert(all.take(n) =~= all);
                }
                self.install_staging();
                if self.failed.len() == 0 && has_plan {
                    self.error = None;
                }
            },
            Err(message) => {
                let mut i: usize = 0;
                while i < cells.len()
                    invariant
                        self.wf(),
                        i <= cells@.len(),
                        self@ == failures_applied(s0, space, cells@.take(i as int), message@),
                    decreases cells@.len() - i,
                {
                    proof {
                        assert(cells@.take(i + 1).drop_last() =~= cells@.take(i as int));
                    }
                    let key = (space, cells[i].0);
                    if self.desired_stamp_is(key, &cells[i].1) {
                        put_entry(&mut self.failed, key, cells[i].1);
                        self.error = Some(message.clone());
                    }
                    i = i + 1;
                }
                proof {
                    assert(cells@.take(i as int) =~= cells@);
                }
            },
        }
    }
}

/// The pairs that satisfy `keep`, in order.
pub open spec fn filter_pairs<V>(s: Seq<(PreviewKey, V)>, keep: spec_fn((PreviewKey, V)) -> bool) -> Seq<
    (PreviewKey, V),
>
    decreases s.len(),
{
    if s.len() == 0 {
        Seq::empty()
    } else if keep(s.last()) {
        filter_pairs(s.drop_last(), keep).push(s.last())
    } else {
        filter_pairs(s.drop_last(), keep)
    }
}

proof fn lemma_filter_pairs_unique<V>(s: Seq<(PreviewKey, V)>, keep: spec_fn((PreviewKey, V)) -> bool)
    requires
        keys_unique(s),
    ensures
        keys_unique(filter_pairs(s, keep)),
        forall|i: int|
            0 <= i < filter_pairs(s, keep).len() ==> s.contains(#[trigger] filter_pairs(s, keep)[i]),
    decreases s.len(),
{
    if s.len() > 0 {
        let t = s.drop_last();
        assert(keys_unique(t)) by {
            assert forall|a: int, b: int| 0 <= a < t.len() && 0 <= b < t.len() && a != b implies t[a].0
                != t[b].0 by {
                assert(t[a] == s[a] && t[b] == s[b]);
            }
        }
        lemma_filter_pairs_unique(t, keep);
        let prev = filter_pairs(t, keep);
        assert forall|i: int| 0 <= i < prev.len() implies s.contains(#[trigger] prev[i]) by {
            assert(t.contains(prev[i]));
            let j = choose|j: int| 0 <= j < t.len() && t[j] == prev[i];
            assert(s[j] == prev[i]);
        }
        if keep(s.last()) {
            let cur = filter_pairs(s, keep);
            assert(cur == prev.push(s.last()));
            assert forall|a: int, b: int|
                0 <= a < cur.len() && 0 <= b < cur.len() && a != b implies cur[a].0 != cur[b].0 by {
                if a == prev.len() && b < prev.len() {
                    assert(t.contains(prev[b]));
                    let j = choose|j: int| 0 <= j < t.len() && t[j] == prev[b];
                    assert(s[j] == prev[b]);
                }
                if b == prev.len() && a < prev.len() {
                    assert(t.contains(prev[a]));
                    let j = choose|j: int| 0 <= j < t.len() && t[j] == prev[a];
                    assert(s[j] == prev[a]);
                }
            }
            assert forall|i: int| 0 <= i < cur.len() implies s.contains(#[trigger] cur[i]) by {
                if i == prev.len() {
                    assert(s[s.len() - 1] == cur[i]);
                }
            }
        }
    }
}

/// A visible product stays while its cell is desired, whatever the stamp: it is shown until its
/// replacement arrives.
pub open spec fn keeps_cell<V>(desired: Seq<(PreviewKey, Stamp)>) -> spec_fn((PreviewKey, V)) -> bool {
    |p: (PreviewKey, V)| has_key(desired, p.0)
}

/// A failure stays while its cell is desired with the same stamp.
pub open spec fn keeps_failure(desired: Seq<(PreviewKey, Stamp)>) -> spec_fn((PreviewKey, Stamp)) -> bool {
    |p: (PreviewKey, Stamp)| has_key(desired, p.0) && as_map(desired)[p.0] == p.1
}

/// A staged product stays while its cell is desired with the same stamp.
pub open spec fn keeps_staged<P>(desired: Seq<(PreviewKey, Stamp)>) -> spec_fn((PreviewKey, (Stamp, PreviewProduct<P>))) -> bool {
    |p: (PreviewKey, (Stamp, PreviewProduct<P>))| has_key(desired, p.0) && as_map(desired)[p.0] == p.1.0
}

/// The preview after the draft's desired stamps change: products of cells no longer desired
/// leave the visible set (which counts as a visible change), failures and staged products
/// stay only for unchanged stamps, and a staging set that became complete is installed.
pub open spec fn desired_set<P, C>(s: PreviewView<P, C>, desired: Seq<(PreviewKey, Stamp)>) -> PreviewView<P, C> {
    let accepted = filter_pairs(s.accepted, keeps_cell(desired));
    installed(
        PreviewView {
            desired,
            accepted,
            failed: filter_pairs(s.failed, keeps_failure(desired)),
            staging: match s.staging {
                Some(st) => Some(filter_pairs(st, keeps_staged(desired))),
                None => None,
            },
            revision: if accepted.len() != s.accepted.len() {
                bumped(s.revision)
            } else {
                s.revision
            },
            ..s
        },
    )
}

fn take_front<V>(v: &mut Vec<V>) -> (x: V)
    requires
        old(v)@.len() > 0,
    ensures
        x == old(v)@[0],
        final(v)@ == old(v)@.drop_first(),
{
    let x = v.remove(0);
    proof {
        assert(v@ =~= old(v)@.drop_first());
    }
    x
}

impl<P, C> EnvironmentPreview<P, C> {
    fn desired_has(&self, desired: &Vec<(PreviewKey, Stamp)>, key: PreviewKey) -> (r: Option<Stamp>)
        requires
            keys_unique(desired@),
        ensures
            r is Some <==> has_key(desired@, key),
            r matches Some(st) ==> as_map(desired@)[key] == st,
    {
        match find(desired, key) {
            Some(i) => {
                proof {
                    crate::assoc::lemma_as_map_at(desired@, i as int);
                }
                Some(desired[i].1)
            },
            None => None,
        }
    }

    fn retain_cells(&self, list: Vec<(PreviewKey, (Stamp, PreviewProduct<P>))>, desired: &Vec<(PreviewKey, Stamp)>, stamps: bool) -> (r: Vec<(PreviewKey, (Stamp, PreviewProduct<P>))>)
        requires
            keys_unique(desired@),
        ensures
            !stamps ==> r@ == filter_pairs(list@, keeps_cell(desired@)),
            stamps ==> r@ == filter_pairs(list@, keeps_staged(desired@)),
    {
        let ghost all = list@;
        let ghost keep = if stamps {
            keeps_staged::<P>(desired@)
        } else {
            keeps_cell::<(Stamp, PreviewProduct<P>)>(desired@)
        };
        let mut rest = list;
        let mut out: Vec<(PreviewKey, (Stamp, PreviewProduct<P>))> = Vec::new();
        let ghost mut n: int = 0;
        while rest.len() > 0
            invariant
                keys_unique(desired@),
                0 <= n <= all.len(),
                rest@ == all.skip(n),
                keep == if stamps {
                    keeps_staged::<P>(desired@)
                } else {
                    keeps_cell::<(Stamp, PreviewProduct<P>)>(desired@)
                },
                out@ == filter_pairs(all.take(n), keep),
            decreases rest@.len(),
        {
            let item = take_front(&mut rest);
            proof {
                assert(all[n] == item);
                assert(all.take(n + 1).drop_last() =~= all.take(n));
                assert(all.skip(n + 1) =~= all.skip(n).drop_first());
            }
            let stamp = self.desired_has(desired, item.0);
            let keep_it = match stamp {
                Some(st) => !stamps || same_stamp(&st, &item.1.0),
                None => false,
            };
            if keep_it {
                out.push(item);
            }
            proof {
                n = n + 1;
            }
        }
        proof {
            assert(all.take(n) =~= all);
        }
        out
    }

    fn retain_failures(&self, list: Vec<(PreviewKey, Stamp)>, desired: &Vec<(PreviewKey, Stamp)>) -> (r: Vec<(PreviewKey, Stamp)>)
        requires
            keys_unique(desired@),
        ensures
            r@ == filter_pairs(list@, keeps_failure(desired@)),
    {
        let mut out: Vec<(PreviewKey, Stamp)> = Vec::new();
        let mut i: usize = 0;
        while i < list.len()
            invariant
                keys_unique(desired@),
                i <= list@.len(),
                out@ == filter_pairs(list@.take(i as int), keeps_failure(desired@)),
            decreases list@.len() - i,
        {
            proof {
                assert(list@.take(i + 1).drop_last() =~= list@.take(i as int));
            }
            let item = list[i];
            let keep_it = match self.desired_has(desired, item.0) {
                Some(st) => same_stamp(&st, &item.1),
                None => false,
            };
            if keep_it {
                out.push(item);
            }
            i = i + 1;
        }
        proof {
            assert(list@.take(i as int) =~= list@);
        }
        out
    }

    /// Takes the draft's desired stamps, one per resident cell in key order: products of cells
    /// no longer desired leave the visible set, failures and staged products stay only for
    /// unchanged stamps, and a staging set that became complete is installed.
    pub fn set_desired(&mut self, desired: Vec<(PreviewKey, Stamp)>)
        requires
            old(self).wf(),
            keys_unique(desired@),
            keys_ascending(desired@),
        ensures
            final(self).wf(),
            final(self)@ == desired_set(old(self)@, desired@),
    {
        let count = self.accepted.len();
        let mut accepted: Vec<(PreviewKey, (Stamp, PreviewProduct<P>))> = Vec::new();
        std::mem::swap(&mut accepted, &mut self.accepted);
        let kept = self.retain_cells(accepted, &desired, false);
        let mut old_failed: Vec<(PreviewKey, Stamp)> = Vec::new();
        std::mem::swap(&mut old_failed, &mut self.failed);
        let failed = self.retain_failures(old_failed, &desired);
        let staging = match self.staging.take() {
            Some(st) => Some(self.retain_cells(st, &desired, true)),
            None => None,
        };
        proof {
            lemma_filter_pairs_unique(old(self)@.accepted, keeps_cell::<(Stamp, PreviewProduct<P>)>(desired@));
            lemma_filter_pairs_unique(old(self)@.failed, keeps_failure(desired@));
            if old(self)@.staging is Some {
                lemma_filter_pairs_unique(old(self)@.staging->0, keeps_staged::<P>(desired@));
            }
        }
        let changed = kept.len() != count;
        self.accepted = kept;
        self.failed = failed;
        self.staging = staging;
        self.desired = desired;
        if changed {
            self.bump();
        }
        self.install_staging();
    }
}

/// Whether a cell lies in the 3 x 3 neighbourhood of another.
pub open spec fn neighbours(a: CellCoord, b: CellCoord) -> bool {
    -1 <= a.x - b.x <= 1 && -1 <= a.z - b.z <= 1
}

/// The Manhattan distance of two cells.
pub open spec fn manhattan(a: CellCoord, b: CellCoord) -> int {
    (if a.x >= b.x {
        a.x - b.x
    } else {
        b.x - a.x
    }) + (if a.z >= b.z {
        a.z - b.z
    } else {
        b.z - a.z
    })
}

/// The priority of a cell in a job: cells next to a painted cell first, then by distance to
/// the focus.
pub open spec fn job_rank(c: CellCoord, focus: CellCoord, painted: Seq<CellCoord>) -> Rank {
    (
        if (exists|i: int| 0 <= i < painted.len() && neighbours(painted[i], c)) {
            0u8
        } else {
            1u8
        },
        manhattan(c, focus) as u128,
    )
}

/// The desired cells still to compile, ranked: not answered by the products and not failed
/// with the same stamp, in key order.
pub open spec fn job_candidates<P, C>(s: PreviewView<P, C>, focus: CellCoord, painted: Seq<CellCoord>) -> Seq<
    (Rank, (CellCoord, Stamp)),
> {
    filter_candidates(s.desired, products_of(s), s.failed).map_values(
        |p: (PreviewKey, Stamp)| (job_rank(p.0.1, focus, painted), (p.0.1, p.1)),
    )
}

/// The desired pairs that are neither answered nor failed with the same stamp.
pub open spec fn filter_candidates<P>(
    desired: Seq<(PreviewKey, Stamp)>,
    products: Seq<(PreviewKey, (Stamp, PreviewProduct<P>))>,
    failed: Seq<(PreviewKey, Stamp)>,
) -> Seq<(PreviewKey, Stamp)>
    decreases desired.len(),
{
    if desired.len() == 0 {
        Seq::empty()
    } else {
        let prev = filter_candidates(desired.drop_last(), products, failed);
        let d = desired.last();
        if !answered(products, d.0, d.1) && !(has_key(failed, d.0) && as_map(failed)[d.0] == d.1) {
            prev.push(d)
        } else {
            prev
        }
    }
}

/// The cells of the next compile job with their stamps: the first few candidates by priority.
pub open spec fn job_cells_spec<P, C>(s: PreviewView<P, C>, focus: CellCoord, painted: Seq<CellCoord>) -> Seq<
    (CellCoord, Stamp),
> {
    let sorted = sort_by_rank(job_candidates(s, focus, painted));
    sorted.take(
        if sorted.len() <= CELLS_PER_JOB {
            sorted.len() as int
        } else {
            CELLS_PER_JOB as int
        },
    ).map_values(|p: (Rank, (CellCoord, Stamp))| p.1)
}

fn distance(a: CellCoord, b: CellCoord) -> (r: u128)
    ensures
        r == manhattan(a, b),
{
    let dx = if a.x >= b.x {
        (a.x as i64) - (b.x as i64)
    } else {
        (b.x as i64) - (a.x as i64)
    };
    let dz = if a.z >= b.z {
        (a.z as i64) - (b.z as i64)
    } else {
        (b.z as i64) - (a.z as i64)
    };
    (dx + dz) as u128
}

fn near_painted(c: CellCoord, painted: &[CellCoord]) -> (r: bool)
    ensures
        r == exists|i: int| 0 <= i < painted@.len() && neighbours(painted@[i], c),
{
    let mut i: usize = 0;
    while i < painted.len()
        invariant
            i <= painted@.len(),
            forall|k: int| 0 <= k < i ==> !neighbours(painted@[k], c),
        decreases painted@.len() - i,
    {
        let p = painted[i];
        let dx = (p.x as i64) - (c.x as i64);
        let dz = (p.z as i64) - (c.z as i64);
        if -1 <= dx && dx <= 1 && -1 <= dz && dz <= 1 {
            return true;
        }
        i = i + 1;
    }
    false
}

impl<P, C> EnvironmentPreview<P, C> {
    /// The cells of the next compile job: desired cells whose stamp is neither answered by the
    /// products nor failed, cells next to a painted cell first, then nearest the focus (key
    /// order among equals), at most a job's worth.
    pub fn job_cells(&self, focus: CellCoord, painted: &[CellCoord]) -> (r: Vec<(CellCoord, Stamp)>)
        requires
            self.wf(),
        ensures
            r@ == job_cells_spec(self@, focus, painted@),
    {
        let products = match &self.staging {
            Some(st) => st,
            None => &self.accepted,
        };
        let mut ranked: Vec<(Rank, (CellCoord, Stamp))> = Vec::new();
        let mut i: usize = 0;
        while i < self.desired.len()
            invariant
                i <= self.desired@.len(),
                products@ == products_of(self@),
                keys_unique(products@),
                keys_unique(self@.failed),
                ranked@ == filter_candidates(self.desired@.take(i as int), products@, self@.failed).map_values(
                    |p: (PreviewKey, Stamp)| (job_rank(p.0.1, focus, painted@), (p.0.1, p.1)),
                ),
            decreases self.desired@.len() - i,
        {
            proof {
                assert(self.desired@.take(i + 1).drop_last() =~= self.desired@.take(i as int));
            }
            let (key, stamp) = self.desired[i];
            let failed_same = match find(&self.failed, key) {
                Some(j) => {
                    proof {
                        crate::assoc::lemma_as_map_at(self.failed@, j as int);
                    }
                    same_stamp(&self.failed[j].1, &stamp)
                },
                None => false,
            };
            if !Self::answers(products, key, &stamp) && !failed_same {
                let near = near_painted(key.1, painted);
                let rank: Rank = (
                    if near {
                        0u8
                    } else {
                        1u8
                    },
                    distance(key.1, focus),
                );
                let ghost before = ranked@;
                ranked.push((rank, (key.1, stamp)));
                proof {
                    let prev = filter_candidates(self.desired@.take(i as int), products@, self@.failed);
                    assert(filter_candidates(self.desired@.take(i + 1), products@, self@.failed) == prev.push((key, stamp)));
                    assert(prev.push((key, stamp)).map_values(
                        |p: (PreviewKey, Stamp)| (job_rank(p.0.1, focus, painted@), (p.0.1, p.1)),
                    ) =~= before.push((rank, (key.1, stamp))));
                }
            }
            i = i + 1;
        }
        proof {
            assert(self.desired@.take(i as int) =~= self.desired@);
        }
        let ghost candidates = ranked@;
        sort_ranked(&mut ranked);
        proof {
            law_sort_by_rank_orders(candidates);
        }
        let mut r: Vec<(CellCoord, Stamp)> = Vec::new();
        let mut j: usize = 0;
        while j < ranked.len() && j < CELLS_PER_JOB
            invariant
                j <= ranked@.len(),
                j <= CELLS_PER_JOB,
                r@ == ranked@.take(j as int).map_values(|p: (Rank, (CellCoord, Stamp))| p.1),
            decreases ranked@.len() - j,
        {
            r.push(ranked[j].1);
            proof {
                assert(ranked@.take(j + 1).map_values(|p: (Rank, (CellCoord, Stamp))| p.1) =~= ranked@.take(
                    j as int,
                ).map_values(|p: (Rank, (CellCoord, Stamp))| p.1).push(ranked@[j as int].1));
            }
            j = j + 1;
        }
        r
    }

    /// Records what became of handing a job to the worker: in flight, or the send error.
    pub fn job_dispatched(&mut self, outcome: Result<(), String>)
        requires
            old(self).wf(),
        ensures
            final(self).wf(),
            outcome is Ok ==> final(self)@ == (PreviewView { in_flight: true, ..old(self)@ }),
            outcome matches Err(e) ==> final(self)@ == (PreviewView { error: Some(e@), ..old(self)@ }),
    {
        match outcome {
            Ok(()) => {
                self.in_flight = true;
            },
            Err(e) => {
                self.error = Some(e);
            },
        }
    }

    /// Replaces the error message.
    pub fn set_error(&mut self, error: Option<String>)
        requires
            old(self).wf(),
        ensures
            final(self).wf(),
            final(self)@ == (PreviewView { error: opt_text(error), ..old(self)@ }),
    {
        self.error = error;
    }

    /// Forgets the failed stamps, so that they are compiled again.
    pub fn clear_failures(&mut self)
        requires
            old(self).wf(),
        ensures
            final(self).wf(),
            final(self)@ == (PreviewView { failed: Seq::empty(), ..old(self)@ }),
    {
        self.failed = Vec::new();
    }

    /// Drops every visible product and the visible catalog (the world space or the runtime
    /// generation changed).
    pub fn drop_visible(&mut self)
        requires
            old(self).wf(),
        ensures
            final(self).wf(),
            final(self)@ == (PreviewView {
                accepted: Seq::empty(),
                active_catalog: None,
                revision: bumped(old(self)@.revision),
                ..old(self)@
            }),
    {
        self.accepted = Vec::new();
        self.active_catalog = None;
        self.bump();
    }

    /// Prepares a swap to a new vegetation catalog: products are staged from scratch and shown
    /// with the catalog once every desired cell is answered.
    pub fn begin_catalog_swap(&mut self, catalog: C)
        requires
            old(self).wf(),
        ensures
            final(self).wf(),
            final(self)@ == (PreviewView {
                pending_catalog: Some(catalog),
                staging: Some(Seq::empty()),
                ..old(self)@
            }),
    {
        self.pending_catalog = Some(catalog);
        self.staging = Some(Vec::new());
    }

    /// Clears everything when no preview can be made (no world space, definition, plants or
    /// presets); the visible set and catalog go, and that counts as a visible change when there
    /// was something.
    pub fn clear_source(&mut self)
        requires
            old(self).wf(),
        ensures
            final(self).wf(),
            final(self)@ == (PreviewView {
                accepted: Seq::empty(),
                active_catalog: None,
                staging: None,
                pending_catalog: None,
                failed: Seq::empty(),
                desired: Seq::empty(),
                revision: if old(self)@.accepted.len() > 0 || old(self)@.active_catalog is Some {
                    bumped(old(self)@.revision)
                } else {
                    old(self)@.revision
                },
                ..old(self)@
            }),
    {
        if self.accepted.len() > 0 || self.active_catalog.is_some() {
            self.accepted = Vec::new();
            self.active_catalog = None;
            self.bump();
        } else {
            proof {
                assert(self.accepted@ =~= Seq::<(PreviewKey, (Stamp, PreviewProduct<P>))>::empty());
            }
        }
        self.staging = None;
        self.pending_catalog = None;
        self.failed = Vec::new();
        self.desired = Vec::new();
    }
}

/// The staged products are copies of the visible ones: same cells, stamps and accounting, and
/// each product a clone.
pub open spec fn staged_copy<P: Clone>(
    visible: Seq<(PreviewKey, (Stamp, PreviewProduct<P>))>,
    staged: Seq<(PreviewKey, (Stamp, PreviewProduct<P>))>,
) -> bool {
    &&& staged.len() == visible.len()
    &&& forall|i: int|
        0 <= i < visible.len() ==> (#[trigger] staged[i]).0 == visible[i].0 && staged[i].1.0
            == visible[i].1.0 && staged[i].1.1.bytes == visible[i].1.1.bytes && staged[i].1.1.objects
            == visible[i].1.1.objects && cloned(visible[i].1.1.product, staged[i].1.1.product)
}

impl<P: Clone, C> EnvironmentPreview<P, C> {
    /// Stages a copy of the visible products when a relief change begins, so that neighbouring
    /// cells switch together; nothing happens while a swap is staged or nothing is visible.
    pub fn stage_visible(&mut self)
        requires
            old(self).wf(),
        ensures
            final(self).wf(),
            old(self)@.staging is None && old(self)@.accepted.len() > 0 ==> ({
                &&& final(self)@.staging matches Some(st) && staged_copy(old(self)@.accepted, st)
                &&& final(self)@ == (PreviewView { staging: final(self)@.staging, ..old(self)@ })
            }),
            !(old(self)@.staging is None && old(self)@.accepted.len() > 0) ==> final(self)@ == old(self)@,
    {
        if self.staging.is_none() && self.accepted.len() > 0 {
            let mut copy: Vec<(PreviewKey, (Stamp, PreviewProduct<P>))> = Vec::new();
            let mut i: usize = 0;
            while i < self.accepted.len()
                invariant
                    i <= self.accepted@.len(),
                    copy@.len() == i,
                    forall|k: int|
                        0 <= k < i ==> (#[trigger] copy@[k]).0 == self.accepted@[k].0 && copy@[k].1.0
                            == self.accepted@[k].1.0 && copy@[k].1.1.bytes == self.accepted@[k].1.1.bytes
                            && copy@[k].1.1.objects == self.accepted@[k].1.1.objects && cloned(
                            self.accepted@[k].1.1.product,
                            copy@[k].1.1.product,
                        ),
                decreases self.accepted@.len() - i,
            {
                let e = &self.accepted[i];
                let product = e.1.1.product.clone();
                copy.push((e.0, (e.1.0, PreviewProduct { product, bytes: e.1.1.bytes, objects: e.1.1.objects })));
                i = i + 1;
            }
            proof {
                assert forall|a: int, b: int| 0 <= a < copy@.len() && 0 <= b < copy@.len() && a != b implies copy@[a].0
                    != copy@[b].0 by {
                    assert(copy@[a].0 == self.accepted@[a].0);
                    assert(copy@[b].0 == self.accepted@[b].0);
                }
            }
            self.staging = Some(copy);
        }
    }
}

/// A compiled cell whose stamp is no longer the desired one changes nothing: an obsolete
/// result never replaces a newer preview.
pub proof fn law_obsolete_results_are_ignored<P, C>(
    s: PreviewView<P, C>,
    k: PreviewKey,
    stamp: Stamp,
    p: PreviewProduct<P>,
)
    requires
        !(has_key(s.desired, k) && as_map(s.desired)[k] == stamp),
    ensures
        item_step(s, k, stamp, p) == s,
{
}

/// While a swap is staged, results never change what is visible.
pub proof fn law_staged_results_stay_hidden<P, C>(
    s: PreviewView<P, C>,
    k: PreviewKey,
    stamp: Stamp,
    p: PreviewProduct<P>,
)
    requires
        s.staging is Some,
    ensures
        item_step(s, k, stamp, p).accepted == s.accepted,
        item_step(s, k, stamp, p).revision == s.revision,
        item_step(s, k, stamp, p).active_catalog == s.active_catalog,
{
}

/// The visible product of a cell is new or other after a change.
pub open spec fn changed_at<P>(
    before: Seq<(PreviewKey, (Stamp, PreviewProduct<P>))>,
    after: Seq<(PreviewKey, (Stamp, PreviewProduct<P>))>,
    k: PreviewKey,
) -> bool {
    as_map(after).dom().contains(k) && (!as_map(before).dom().contains(k) || as_map(after)[k]
        != as_map(before)[k])
}

proof fn lemma_put_map<V>(s: Seq<(PreviewKey, V)>, k: PreviewKey, v: V)
    requires
        keys_unique(s),
    ensures
        keys_unique(put(s, k, v)),
        as_map(put(s, k, v)) == as_map(s).insert(k, v),
{
    if has_key(s, k) {
        let i = choose|i: int| 0 <= i < s.len() && s[i].0 == k;
        crate::assoc::lemma_as_map_update(s, i, v);
    } else {
        crate::assoc::lemma_as_map_push(s, k, v);
    }
}

/// The stamp a job gave a cell is one of its pairs.
proof fn lemma_stamp_for_listed(cells: Seq<(CellCoord, Stamp)>, c: CellCoord)
    requires
        exists|i: int| 0 <= i < cells.len() && cells[i].0 == c,
    ensures
        cells.contains((c, stamp_for(cells, c))),
    decreases cells.len(),
{
    if cells[0].0 == c {
        assert(cells[0] == (c, stamp_for(cells, c)));
    } else {
        let i = choose|i: int| 0 <= i < cells.len() && cells[i].0 == c;
        assert(cells.drop_first()[i - 1].0 == c);
        lemma_stamp_for_listed(cells.drop_first(), c);
        let j = choose|j: int| 0 <= j < cells.drop_first().len() && cells.drop_first()[j] == (c, stamp_for(cells, c));
        assert(cells[j + 1] == (c, stamp_for(cells, c)));
    }
}

/// Compiled cells taken in without a staged swap keep every visible cell, and change one only
/// to a product of the stamp the draft desires and the job gave it.
proof fn lemma_items_keep_or_answer<P, C>(
    s: PreviewView<P, C>,
    cells: Seq<(CellCoord, Stamp)>,
    items: Seq<(PreviewKey, PreviewProduct<P>)>,
    k: PreviewKey,
)
    requires
        s.staging is None,
        keys_unique(s.accepted),
    ensures
        items_applied(s, cells, items).desired == s.desired,
        items_applied(s, cells, items).staging is None,
        keys_unique(items_applied(s, cells, items).accepted),
        as_map(s.accepted).dom().contains(k) ==> as_map(items_applied(s, cells, items).accepted).dom().contains(k),
        changed_at(s.accepted, items_applied(s, cells, items).accepted, k) ==> {
            let stamp = as_map(items_applied(s, cells, items).accepted)[k].0;
            &&& has_key(s.desired, k)
            &&& stamp == as_map(s.desired)[k]
            &&& stamp == stamp_for(cells, k.1)
            &&& exists|j: int| 0 <= j < items.len() && items[j].0 == k
        },
    decreases items.len(),
{
    if items.len() > 0 {
        let rest = items.drop_last();
        lemma_items_keep_or_answer(s, cells, rest, k);
        let prev = items_applied(s, cells, rest);
        let (k1, p) = items.last();
        let st = stamp_for(cells, k1.1);
        if has_key(prev.desired, k1) && as_map(prev.desired)[k1] == st && !over_budget(prev, k1, p) {
            lemma_put_map(prev.accepted, k1, (st, p));
            if k1 == k {
                assert(items[items.len() - 1].0 == k);
            } else if changed_at(s.accepted, items_applied(s, cells, items).accepted, k) {
                let j = choose|j: int| 0 <= j < rest.len() && rest[j].0 == k;
                assert(items[j].0 == k);
            }
        } else if changed_at(s.accepted, items_applied(s, cells, items).accepted, k) {
            let j = choose|j: int| 0 <= j < rest.len() && rest[j].0 == k;
            assert(items[j].0 == k);
        }
    }
}

/// A failed job changes no visible product and no desired stamp.
proof fn lemma_failures_keep<P, C>(
    s: PreviewView<P, C>,
    space: WorldSpaceId,
    cells: Seq<(CellCoord, Stamp)>,
    message: Seq<char>,
)
    ensures
        failures_applied(s, space, cells, message).accepted == s.accepted,
        failures_applied(s, space, cells, message).desired == s.desired,
    decreases cells.len(),
{
    if cells.len() > 0 {
        lemma_failures_keep(s, space, cells.drop_last(), message);
    }
}

/// A result taken in while no swap is staged keeps the desired stamps and every visible cell,
/// and changes a visible cell only when the job succeeded, and then only to a product of the
/// stamp the draft desires for it, one the job was given for that cell: a result is accepted
/// only while its dependency stamp still matches the draft.
pub proof fn law_results_only_answer_the_draft<P, C>(
    s: PreviewView<P, C>,
    space: WorldSpaceId,
    cells: Seq<(CellCoord, Stamp)>,
    result: Result<Seq<(PreviewKey, PreviewProduct<P>)>, Seq<char>>,
    has_plan: bool,
    k: PreviewKey,
)
    requires
        preview_inv(s),
        s.staging is None,
        result matches Ok(items) ==> items_in_job(cells, items),
    ensures
        accepted_result(s, space, cells, result, has_plan).desired == s.desired,
        as_map(s.accepted).dom().contains(k) ==> as_map(
            accepted_result(s, space, cells, result, has_plan).accepted,
        ).dom().contains(k),
        changed_at(s.accepted, accepted_result(s, space, cells, result, has_plan).accepted, k) ==> {
            let stamp = as_map(accepted_result(s, space, cells, result, has_plan).accepted)[k].0;
            &&& result is Ok
            &&& as_map(s.desired).dom().contains(k)
            &&& stamp == as_map(s.desired)[k]
            &&& cells.contains((k.1, stamp))
        },
{
    let s0 = PreviewView { in_flight: false, ..s };
    crate::assoc::lemma_as_map_domain(s.desired, k);
    match result {
        Ok(items) => {
            lemma_items_keep_or_answer(s0, cells, items, k);
            let v = items_applied(s0, cells, items);
            assert(installed(v) == v);
            if changed_at(s.accepted, accepted_result(s, space, cells, result, has_plan).accepted, k) {
                let j = choose|j: int| 0 <= j < items.len() && items[j].0 == k;
                assert(exists|i: int| 0 <= i < cells.len() && cells[i].0 == (items[j]).0.1);
                lemma_stamp_for_listed(cells, k.1);
            }
        },
        Err(m) => {
            lemma_failures_keep(s0, space, cells, m);
        },
    }
}

proof fn lemma_filter_pairs_keep<V>(s: Seq<(PreviewKey, V)>, keep: spec_fn((PreviewKey, V)) -> bool)
    ensures
        forall|i: int| 0 <= i < filter_pairs(s, keep).len() ==> keep(#[trigger] filter_pairs(s, keep)[i]),
    decreases s.len(),
{
    if s.len() > 0 {
        lemma_filter_pairs_keep(s.drop_last(), keep);
        let prev = filter_pairs(s.drop_last(), keep);
        if keep(s.last()) {
            assert forall|i: int| 0 <= i < prev.len() + 1 implies keep(#[trigger] prev.push(s.last())[i]) by {
                if i < prev.len() {
                    assert(prev.push(s.last())[i] == prev[i]);
                }
            }
        }
    }
}

/// The preview answers its desired stamps: every visible cell is desired, and every failure
/// and staged product is of a desired cell with its desired stamp.
pub open spec fn answers_desired<P, C>(s: PreviewView<P, C>) -> bool {
    &&& forall|i: int| 0 <= i < s.accepted.len() ==> has_key(s.desired, (#[trigger] s.accepted[i]).0)
    &&& forall|i: int|
        0 <= i < s.failed.len() ==> has_key(s.desired, (#[trigger] s.failed[i]).0) && as_map(s.desired)[s.failed[i].0]
            == s.failed[i].1
    &&& s.staging matches Some(st) ==> forall|i: int|
        0 <= i < st.len() ==> has_key(s.desired, (#[trigger] st[i]).0) && as_map(s.desired)[st[i].0] == st[i].1.0
}

/// After the desired stamps change, the preview answers them (see `answers_desired`), whatever it
/// held before, and it desires exactly the given cells.
pub proof fn law_desired_change_is_answered<P, C>(s: PreviewView<P, C>, desired: Seq<(PreviewKey, Stamp)>)
    ensures
        desired_set(s, desired).desired == desired,
        answers_desired(desired_set(s, desired)),
{
    let accepted = filter_pairs(s.accepted, keeps_cell(desired));
    lemma_filter_pairs_keep(s.accepted, keeps_cell::<(Stamp, PreviewProduct<P>)>(desired));
    lemma_filter_pairs_keep(s.failed, keeps_failure(desired));
    if s.staging is Some {
        lemma_filter_pairs_keep(s.staging->0, keeps_staged::<P>(desired));
    }
}

proof fn lemma_split_decodes(hi: int, lo: int, unit: int)
    requires
        0 <= lo < unit,
        0 <= hi,
        unit > 0,
    ensures
        (hi * unit + lo) / unit == hi,
        (hi * unit + lo) % unit == lo,
{
    assert((hi * unit + lo) / unit == hi && (hi * unit + lo) % unit == lo) by (nonlinear_arith)
        requires
            0 <= lo < unit,
            0 <= hi,
    ;
}

/// Two cells with one sort key are one cell.
proof fn lemma_key_order_injective(a: PreviewKey, b: PreviewKey)
    requires
        key_order(a) == key_order(b),
    ensures
        a == b,
{
    let la = (a.1.x as int + 0x8000_0000) * 0x1_0000_0000 + (a.1.z as int + 0x8000_0000);
    let lb = (b.1.x as int + 0x8000_0000) * 0x1_0000_0000 + (b.1.z as int + 0x8000_0000);
    assert(0 <= la < 0x1_0000_0000_0000_0000) by (nonlinear_arith)
        requires
            la == (a.1.x as int + 0x8000_0000) * 0x1_0000_0000 + (a.1.z as int + 0x8000_0000),
            0 <= a.1.x as int + 0x8000_0000 < 0x1_0000_0000,
            0 <= a.1.z as int + 0x8000_0000 < 0x1_0000_0000,
    ;
    assert(0 <= lb < 0x1_0000_0000_0000_0000) by (nonlinear_arith)
        requires
            lb == (b.1.x as int + 0x8000_0000) * 0x1_0000_0000 + (b.1.z as int + 0x8000_0000),
            0 <= b.1.x as int + 0x8000_0000 < 0x1_0000_0000,
            0 <= b.1.z as int + 0x8000_0000 < 0x1_0000_0000,
    ;
    lemma_split_decodes(a.0.0 as int, la, 0x1_0000_0000_0000_0000);
    lemma_split_decodes(b.0.0 as int, lb, 0x1_0000_0000_0000_0000);
    lemma_split_decodes(a.1.x as int + 0x8000_0000, a.1.z as int + 0x8000_0000, 0x1_0000_0000);
    lemma_split_decodes(b.1.x as int + 0x8000_0000, b.1.z as int + 0x8000_0000, 0x1_0000_0000);
}

fn key_order_of(k: PreviewKey) -> (r: u128)
    ensures
        r == key_order(k),
{
    let s = k.0.0 as u128;
    let x = (k.1.x as i64 + 0x8000_0000) as u128;
    let z = (k.1.z as i64 + 0x8000_0000) as u128;
    s * 0x1_0000_0000_0000_0000 + x * 0x1_0000_0000 + z
}

/// Inserts a pair into a list in ascending key order.
fn insert_by_key(v: Vec<(PreviewKey, Stamp)>, k: PreviewKey, st: Stamp) -> (out: Vec<(PreviewKey, Stamp)>)
    requires
        keys_ascending(v@),
        !has_key(v@, k),
    ensures
        keys_ascending(out@),
        out@.len() == v@.len() + 1,
        forall|x: (PreviewKey, Stamp)| out@.contains(x) <==> (v@.contains(x) || x == (k, st)),
{
    let ko = key_order_of(k);
    let mut j: usize = 0;
    while j < v.len() && key_order_of(v[j].0) < ko
        invariant
            j <= v@.len(),
            ko == key_order(k),
            forall|m: int| 0 <= m < j ==> key_order(#[trigger] v@[m].0) < ko,
        decreases v@.len() - j,
    {
        j = j + 1;
    }
    proof {
        if j < v@.len() {
            assert(v@[j as int].0 != k);
            if key_order(v@[j as int].0) == ko {
                lemma_key_order_injective(v@[j as int].0, k);
            }
        }
    }
    let ghost w = v@;
    let mut out = v;
    out.insert(j, (k, st));
    proof {
        assert(out@ == w.insert(j as int, (k, st)));
        assert forall|a: int, b: int| 0 <= a < b < out@.len() implies key_order(out@[a].0) < key_order(out@[b].0) by {
            if b < j {
                assert(out@[a] == w[a] && out@[b] == w[b]);
            } else if b == j {
                assert(out@[a] == w[a]);
            } else if a < j {
                assert(out@[a] == w[a] && out@[b] == w[b - 1]);
                assert(key_order(w[j as int].0) <= key_order(w[b - 1].0));
            } else if a == j {
                assert(out@[b] == w[b - 1]);
                assert(key_order(w[j as int].0) <= key_order(w[b - 1].0));
            } else {
                assert(out@[a] == w[a - 1] && out@[b] == w[b - 1]);
            }
        }
        assert forall|x: (PreviewKey, Stamp)| out@.contains(x) <==> (v@.contains(x) || x == (k, st)) by {
            if out@.contains(x) {
                let i = choose|i: int| 0 <= i < out@.len() && out@[i] == x;
                if i < j {
                    assert(w[i] == x);
                } else if i > j {
                    assert(w[i - 1] == x);
                }
            }
            if w.contains(x) {
                let i = choose|i: int| 0 <= i < w.len() && w[i] == x;
                if i < j {
                    assert(out@[i] == x);
                } else {
                    assert(out@[i + 1] == x);
                }
            }
            if x == (k, st) {
                assert(out@[j as int] == x);
            }
        }
    }
    out
}

/// Road edits reach the cell: it lies in one of their regions, or there are no regions (every
/// cell is reached).
pub open spec fn road_reaches(regions: Option<Seq<CellRegion>>, c: CellCoord) -> bool {
    match regions {
        None => true,
        Some(rs) => in_some_region(rs, c),
    }
}

/// The cell lies in one of the regions.
pub open spec fn in_some_region(rs: Seq<CellRegion>, c: CellCoord) -> bool {
    exists|i: int| 0 <= i < rs.len() && in_region(#[trigger] rs[i], c)
}

/// The stamp a resident cell is desired with: the desired stamp over its dependency stamp and,
/// where road edits reach it, the road stamp.
pub open spec fn cell_desired(
    plan: Seq<u8>,
    epoch: u64,
    generation: Seq<u8>,
    overrides: Seq<(CellCoord, Stamp)>,
    road: Seq<u8>,
    regions: Option<Seq<CellRegion>>,
    c: CellCoord,
) -> Seq<u8> {
    blake3_digest(
        desired_message(
            blake3_digest(dependency_message(plan, epoch, generation, c, overrides)),
            road,
            road_reaches(regions, c),
        ),
    )
}

/// The pair is a resident cell of the space with the stamp `cell_desired` gives it.
pub open spec fn desired_entry(
    e: (PreviewKey, Stamp),
    space: WorldSpaceId,
    resident: Seq<CellCoord>,
    plan: Seq<u8>,
    epoch: u64,
    generation: Seq<u8>,
    overrides: Seq<(CellCoord, Stamp)>,
    road: Seq<u8>,
    regions: Option<Seq<CellRegion>>,
) -> bool {
    exists|j: int|
        0 <= j < resident.len() && e.0 == (space, resident[j]) && e.1@ == cell_desired(
            plan,
            epoch,
            generation,
            overrides,
            road,
            regions,
            resident[j],
        )
}

fn reaches(regions: Option<&[CellRegion]>, c: CellCoord) -> (r: bool)
    ensures
        r == road_reaches(
            match regions {
                Some(rs) => Some(rs@),
                None => None,
            },
            c,
        ),
{
    match regions {
        None => true,
        Some(rs) => {
            let mut i: usize = 0;
            while i < rs.len()
                invariant
                    regions == Some(rs),
                    i <= rs@.len(),
                    forall|m: int| 0 <= m < i ==> !in_region(#[trigger] rs@[m], c),
                decreases rs@.len() - i,
            {
                let b = rs[i];
                if b.minimum.x <= c.x && c.x <= b.maximum.x && b.minimum.z <= c.z && c.z <= b.maximum.z {
                    assert(in_region(rs@[i as int], c));
                    assert(in_some_region(rs@, c));
                    return true;
                }
                i = i + 1;
            }
            false
        },
    }
}

/// The desired stamps of the resident cells of a space, in key order: each cell with the stamp
/// `cell_desired` gives it, from the plan's fingerprint, the source epoch, the runtime
/// generation, the overrides of the space's cells, the road stamp and the cells road edits
/// reach (none meaning every cell). A preview desires as many cells as are resident.
pub fn desired_cells(
    space: WorldSpaceId,
    resident: &[CellCoord],
    plan: &Stamp,
    epoch: u64,
    generation: &str,
    overrides: &[(CellCoord, Stamp)],
    road: &Stamp,
    regions: Option<&[CellRegion]>,
) -> (r: Vec<(PreviewKey, Stamp)>)
    requires
        forall|a: int, b: int| 0 <= a < b < resident@.len() ==> resident@[a] != resident@[b],
    ensures
        r@.len() == resident@.len(),
        keys_ascending(r@),
        keys_unique(r@),
        forall|i: int|
            0 <= i < r@.len() ==> desired_entry(
                #[trigger] r@[i],
                space,
                resident@,
                plan@,
                epoch,
                generation.spec_bytes(),
                overrides@,
                road@,
                match regions {
                    Some(rs) => Some(rs@),
                    None => None,
                },
            ),
        forall|j: int| 0 <= j < resident@.len() ==> has_key(r@, (space, #[trigger] resident@[j])),
{
    let ghost rv = match regions {
        Some(rs) => Some(rs@),
        None => None,
    };
    let ghost res = resident@;
    let mut out: Vec<(PreviewKey, Stamp)> = Vec::new();
    let mut n: usize = 0;
    while n < resident.len()
        invariant
            n <= resident@.len(),
            res == resident@,
            forall|a: int, b: int| 0 <= a < b < resident@.len() ==> resident@[a] != resident@[b],
            rv == match regions {
                Some(rs) => Some(rs@),
                None => None,
            },
            out@.len() == n,
            keys_ascending(out@),
            forall|x: (PreviewKey, Stamp)|
                #[trigger] out@.contains(x) ==> desired_entry(
                    x,
                    space,
                    res.take(n as int),
                    plan@,
                    epoch,
                    generation.spec_bytes(),
                    overrides@,
                    road@,
                    rv,
                ),
            forall|j: int| 0 <= j < n ==> has_key(out@, (space, #[trigger] resident@[j])),
        decreases resident@.len() - n,
    {
        let c = resident[n];
        let dependency = dependency_stamp(plan, epoch, generation, c, overrides);
        let reached = reaches(regions, c);
        let st = desired_stamp(&dependency, road, reached);
        proof {
            if has_key(out@, (space, c)) {
                let i = choose|i: int| 0 <= i < out@.len() && out@[i].0 == (space, c);
                assert(out@.contains(out@[i]));
                let j = choose|j: int|
                    0 <= j < n && out@[i].0 == (space, res.take(n as int)[j]) && out@[i].1@ == cell_desired(
                        plan@,
                        epoch,
                        generation.spec_bytes(),
                        overrides@,
                        road@,
                        rv,
                        res.take(n as int)[j],
                    );
                assert(res.take(n as int)[j] == resident@[j]);
                assert(resident@[j] == resident@[n as int]);
            }
        }
        let ghost before = out@;
        out = insert_by_key(out, (space, c), st);
        proof {
            assert forall|x: (PreviewKey, Stamp)| #[trigger] out@.contains(x) implies desired_entry(
                x,
                space,
                res.take(n + 1),
                plan@,
                epoch,
                generation.spec_bytes(),
                overrides@,
                road@,
                rv,
            ) by {
                if x == ((space, c), st) {
                    assert(res.take(n + 1)[n as int] == c);
                } else {
                    assert(before.contains(x));
                    let j = choose|j: int|
                        0 <= j < n && x.0 == (space, res.take(n as int)[j]) && x.1@ == cell_desired(
                            plan@,
                            epoch,
                            generation.spec_bytes(),
                            overrides@,
                            road@,
                            rv,
                            res.take(n as int)[j],
                        );
                    assert(res.take(n + 1)[j] == res.take(n as int)[j]);
                }
            }
            assert forall|j: int| 0 <= j < n + 1 implies has_key(out@, (space, #[trigger] resident@[j])) by {
                if j < n {
                    let i = choose|i: int| 0 <= i < before.len() && before[i].0 == (space, resident@[j]);
                    assert(before.contains(before[i]));
                    let i2 = choose|i2: int| 0 <= i2 < out@.len() && out@[i2] == before[i];
                    assert(out@[i2].0 == (space, resident@[j]));
                } else {
                    assert(out@.contains(((space, c), st)));
                    let i2 = choose|i2: int| 0 <= i2 < out@.len() && out@[i2] == ((space, c), st);
                    assert(out@[i2].0 == (space, resident@[j]));
                }
            }
        }
        n = n + 1;
    }
    proof {
        assert(res.take(n as int) =~= res);
        assert forall|i: int| 0 <= i < out@.len() implies desired_entry(
            #[trigger] out@[i],
            space,
            resident@,
            plan@,
            epoch,
            generation.spec_bytes(),
            overrides@,
            road@,
            rv,
        ) by {
            assert(out@.contains(out@[i]));
        }
        assert forall|a: int, b: int| 0 <= a < out@.len() && 0 <= b < out@.len() && a != b implies out@[a].0
            != out@[b].0 by {
            if a < b {
                assert(key_order(out@[a].0) < key_order(out@[b].0));
            } else {
                assert(key_order(out@[b].0) < key_order(out@[a].0));
            }
        }
    }
    out
}

/// Installing switches the visible products all at once: either nothing changes, or the whole
/// staged set becomes visible, and only once every desired cell is answered.
pub proof fn law_install_is_all_or_nothing<P, C>(s: PreviewView<P, C>)
    ensures
        installed(s) == s || (s.staging matches Some(st) && installed(s).accepted == st
            && installed(s).staging is None && pending_count(s.desired, st) == 0),
{
}

} // verus!
