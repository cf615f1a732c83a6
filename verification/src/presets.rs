//! The shared preset library: presets by value, the revisions a save checkpoint assigns to a
//! local edit, and the merge of authored changes onto a library that may have moved on since.

use vstd::prelude::*;

use crate::ranked::{lemma_sort_by_rank_map, sort_by_rank, sort_ranked, Rank};

verus! {

/// Identity of one shared preset.
#[derive(Clone, Copy, Debug, PartialEq, Eq, Hash, Structural)]
pub struct PresetId(pub u128);

/// One preset: its identity, save revision, display name, and its kind, held as the encoded
/// bytes of the kind's settings.
#[derive(Debug)]
pub struct Preset {
    pub id: PresetId,
    pub revision: u64,
    pub name: String,
    pub kind: Vec<u8>,
}

/// A preset by value.
pub struct PresetView {
    pub id: PresetId,
    pub revision: u64,
    pub name: Seq<char>,
    pub kind: Seq<u8>,
}

impl View for Preset {
    type V = PresetView;

    open spec fn view(&self) -> PresetView {
        PresetView { id: self.id, revision: self.revision, name: self.name@, kind: self.kind@ }
    }
}

/// The shared preset library at one save revision.
#[derive(Debug)]
pub struct PresetLibrary {
    pub revision: u64,
    pub presets: Vec<Preset>,
}

/// A library by value.
pub struct LibraryView {
    pub revision: u64,
    pub presets: Seq<PresetView>,
}

impl View for PresetLibrary {
    type V = LibraryView;

    open spec fn view(&self) -> LibraryView {
        LibraryView { revision: self.revision, presets: pviews(self.presets@) }
    }
}

/// Presets by value.
pub open spec fn pviews(s: Seq<Preset>) -> Seq<PresetView> {
    s.map_values(|p: Preset| p@)
}

/// The first preset of the identity, if any.
pub open spec fn find_preset(s: Seq<PresetView>, id: PresetId) -> Option<PresetView>
    decreases s.len(),
{
    if s.len() == 0 {
        None
    } else if s[0].id == id {
        Some(s[0])
    } else {
        find_preset(s.drop_first(), id)
    }
}

/// An optional borrowed preset by value.
pub open spec fn opv(p: Option<&Preset>) -> Option<PresetView> {
    match p {
        Some(x) => Some(x@),
        None => None,
    }
}

/// A copy of a byte sequence.
pub fn copy_bytes(v: &Vec<u8>) -> (r: Vec<u8>)
    ensures
        r@ == v@,
{
    let mut r: Vec<u8> = Vec::new();
    let mut i: usize = 0;
    while i < v.len()
        invariant
            i <= v@.len(),
            r@ == v@.take(i as int),
        decreases v@.len() - i,
    {
        r.push(v[i]);
        proof {
            assert(v@.take(i + 1) =~= v@.take(i as int).push(v@[i as int]));
        }
        i = i + 1;
    }
    assert(v@.take(i as int) =~= v@);
    r
}

/// Whether two byte sequences are equal.
pub fn bytes_equal(a: &Vec<u8>, b: &Vec<u8>) -> (r: bool)
    ensures
        r == (a@ == b@),
{
    if a.len() != b.len() {
        return false;
    }
    let mut i: usize = 0;
    while i < a.len()
        invariant
            i <= a@.len(),
            a@.len() == b@.len(),
            forall|k: int| 0 <= k < i ==> a@[k] == b@[k],
        decreases a@.len() - i,
    {
        if a[i] != b[i] {
            return false;
        }
        i = i + 1;
    }
    assert(a@ =~= b@);
    true
}

impl Preset {
    /// A copy of the preset.
    pub fn duplicate(&self) -> (r: Preset)
        ensures
            r@ == self@,
    {
        Preset { id: self.id, revision: self.revision, name: self.name.clone(), kind: copy_bytes(&self.kind) }
    }

    /// Whether two presets are equal in every field.
    pub fn same_as(&self, other: &Preset) -> (r: bool)
        ensures
            r == (self@ == other@),
    {
        self.id == other.id && self.revision == other.revision && self.name == other.name
            && bytes_equal(&self.kind, &other.kind)
    }
}

/// Whether two optional presets are equal in every field.
pub fn same_preset(a: Option<&Preset>, b: Option<&Preset>) -> (r: bool)
    ensures
        r == (opv(a) == opv(b)),
{
    match (a, b) {
        (None, None) => true,
        (Some(x), Some(y)) => x.same_as(y),
        _ => false,
    }
}

/// Whether two optional presets carry the same authored content: identity, name and kind,
/// whatever revisions their saves gave them.
pub open spec fn same_authored(a: Option<PresetView>, b: Option<PresetView>) -> bool {
    match (a, b) {
        (None, None) => true,
        (Some(x), Some(y)) => x.id == y.id && x.name == y.name && x.kind == y.kind,
        _ => false,
    }
}

/// Whether two optional presets carry the same authored content.
pub fn authored_same(a: Option<&Preset>, b: Option<&Preset>) -> (r: bool)
    ensures
        r == same_authored(opv(a), opv(b)),
{
    match (a, b) {
        (None, None) => true,
        (Some(x), Some(y)) => x.id == y.id && x.name == y.name && bytes_equal(&x.kind, &y.kind),
        _ => false,
    }
}

impl PresetLibrary {
    /// The first preset of the identity, if any.
    pub fn get(&self, id: PresetId) -> (r: Option<&Preset>)
        ensures
            opv(r) == find_preset(self@.presets, id),
    {
        let mut i: usize = 0;
        assert(self@.presets.skip(0) =~= self@.presets);
        while i < self.presets.len()
            invariant
                i <= self.presets@.len(),
                find_preset(self@.presets, id) == find_preset(self@.presets.skip(i as int), id),
            decreases self.presets@.len() - i,
        {
            assert(self@.presets.skip(i as int).drop_first() =~= self@.presets.skip(i + 1));
            assert(self@.presets.skip(i as int)[0] == self.presets@[i as int]@);
            if self.presets[i].id == id {
                return Some(&self.presets[i]);
            }
            i = i + 1;
        }
        None
    }

    /// A copy of the library.
    pub fn duplicate(&self) -> (r: PresetLibrary)
        ensures
            r@ == self@,
    {
        let mut presets: Vec<Preset> = Vec::new();
        let mut i: usize = 0;
        while i < self.presets.len()
            invariant
                i <= self.presets@.len(),
                pviews(presets@) =~= self@.presets.take(i as int),
            decreases self.presets@.len() - i,
        {
            presets.push(self.presets[i].duplicate());
            assert(self@.presets.take(i + 1) =~= self@.presets.take(i as int).push(self@.presets[i as int]));
            i = i + 1;
        }
        assert(self@.presets.take(i as int) =~= self@.presets);
        PresetLibrary { revision: self.revision, presets }
    }

    /// Whether two libraries are equal, revisions and order of presets included.
    pub fn same_as(&self, other: &PresetLibrary) -> (r: bool)
        ensures
            r == (self@ == other@),
    {
        if self.revision != other.revision || self.presets.len() != other.presets.len() {
            assert(self@.presets.len() != other@.presets.len() || self@.revision != other@.revision);
            return false;
        }
        let mut i: usize = 0;
        while i < self.presets.len()
            invariant
                i <= self.presets@.len(),
                self.presets@.len() == other.presets@.len(),
                forall|k: int| 0 <= k < i ==> self@.presets[k] == other@.presets[k],
            decreases self.presets@.len() - i,
        {
            if !self.presets[i].same_as(&other.presets[i]) {
                assert(self@.presets[i as int] != other@.presets[i as int]);
                return false;
            }
            i = i + 1;
        }
        assert(self@.presets =~= other@.presets);
        true
    }
}

/// The numbers strictly ascend.
pub open spec fn ascending(s: Seq<u128>) -> bool {
    forall|i: int, j: int| 0 <= i < j < s.len() ==> s[i] < s[j]
}

/// The identities of the presets of two lists.
pub open spec fn id_set(a: Seq<PresetView>, b: Seq<PresetView>) -> Set<u128> {
    Set::new(
        |x: u128|
            (exists|i: int| 0 <= i < a.len() && a[i].id.0 == x) || (exists|j: int|
                0 <= j < b.len() && b[j].id.0 == x),
    )
}

/// The sequence lists exactly the numbers of the set, ascending.
pub open spec fn lists_ascending(q: Seq<u128>, s: Set<u128>) -> bool {
    ascending(q) && forall|x: u128| q.contains(x) <==> s.contains(x)
}

/// The numbers of a finite set in ascending order.
pub open spec fn ascending_ids(s: Set<u128>) -> Seq<u128> {
    choose|q: Seq<u128>| lists_ascending(q, s)
}

/// Two ascending sequences of the same numbers are one sequence.
pub proof fn lemma_ascending_unique(a: Seq<u128>, b: Seq<u128>)
    requires
        ascending(a),
        ascending(b),
        forall|x: u128| a.contains(x) <==> b.contains(x),
    ensures
        a == b,
    decreases a.len(),
{
    if a.len() == 0 {
        if b.len() > 0 {
            assert(b.contains(b[0]));
        }
        assert(a =~= b);
    } else {
        assert(a.contains(a[0]));
        assert(b.len() > 0);
        assert(b.contains(b[0]));
        let k = choose|k: int| 0 <= k < b.len() && b[k] == a[0];
        let m = choose|m: int| 0 <= m < a.len() && a[m] == b[0];
        assert(b[0] <= b[k]) by {
            if k > 0 {
                assert(b[0] < b[k]);
            }
        }
        assert(a[0] <= a[m]) by {
            if m > 0 {
                assert(a[0] < a[m]);
            }
        }
        assert(a[0] == b[0]);
        let a1 = a.drop_first();
        let b1 = b.drop_first();
        assert forall|x: u128| a1.contains(x) <==> b1.contains(x) by {
            if a1.contains(x) {
                let i = choose|i: int| 0 <= i < a1.len() && a1[i] == x;
                assert(a[i + 1] == x && a[0] < a[i + 1]);
                assert(a.contains(x));
                let j = choose|j: int| 0 <= j < b.len() && b[j] == x;
                assert(j != 0);
                assert(b1[j - 1] == x);
            }
            if b1.contains(x) {
                let i = choose|i: int| 0 <= i < b1.len() && b1[i] == x;
                assert(b[i + 1] == x && b[0] < b[i + 1]);
                assert(b.contains(x));
                let j = choose|j: int| 0 <= j < a.len() && a[j] == x;
                assert(j != 0);
                assert(a1[j - 1] == x);
            }
        }
        lemma_ascending_unique(a1, b1);
        assert(a =~= seq![a[0]] + a1);
        assert(b =~= seq![b[0]] + b1);
    }
}

/// An ascending listing of a set is the one `ascending_ids` names.
pub proof fn lemma_ascending_ids(q: Seq<u128>, s: Set<u128>)
    requires
        lists_ascending(q, s),
    ensures
        ascending_ids(s) == q,
{
    let c = ascending_ids(s);
    assert(lists_ascending(c, s));
    lemma_ascending_unique(c, q);
}

/// Where a number belongs in an ascending sequence: after every smaller one.
fn ascending_position(r: &Vec<u128>, x: u128) -> (j: usize)
    requires
        ascending(r@),
    ensures
        j <= r@.len(),
        forall|k: int| 0 <= k < j ==> r@[k] < x,
        j < r@.len() ==> r@[j as int] >= x,
{
    let mut j: usize = 0;
    while j < r.len() && r[j] < x
        invariant
            j <= r@.len(),
            forall|k: int| 0 <= k < j ==> r@[k] < x,
        decreases r@.len() - j,
    {
        j = j + 1;
    }
    j
}

/// Adds a number to an ascending sequence unless it is there already.
pub fn insert_ascending(v: Vec<u128>, x: u128) -> (out: Vec<u128>)
    requires
        ascending(v@),
    ensures
        ascending(out@),
        forall|y: u128| #[trigger] out@.contains(y) <==> (v@.contains(y) || y == x),
{
    let j = ascending_position(&v, x);
    if j < v.len() && v[j] == x {
        assert forall|y: u128| #[trigger] v@.contains(y) <==> (v@.contains(y) || y == x) by {
            if y == x {
                assert(v@[j as int] == y);
            }
        }
        return v;
    }
    let mut r = v.clone();
    assert(r@ == v@);
    r.insert(j, x);
    proof {
        let old_r = v@;
        assert(r@ == old_r.insert(j as int, x));
        assert forall|i: int, k: int| 0 <= i < k < r@.len() implies r@[i] < r@[k] by {
            if k < j {
                assert(r@[i] == old_r[i] && r@[k] == old_r[k]);
            } else if k == j {
                assert(r@[i] == old_r[i]);
            } else if i < j {
                assert(r@[i] == old_r[i] && r@[k] == old_r[k - 1]);
                if k - 1 > j {
                    assert(old_r[j as int] < old_r[k - 1]);
                }
            } else if i == j {
                assert(r@[k] == old_r[k - 1]);
                if k - 1 > j {
                    assert(old_r[j as int] < old_r[k - 1]);
                }
            } else {
                assert(r@[i] == old_r[i - 1] && r@[k] == old_r[k - 1]);
            }
        }
        assert forall|y: u128| #[trigger] r@.contains(y) <==> (v@.contains(y) || y == x) by {
            if r@.contains(y) {
                let i = choose|i: int| 0 <= i < r@.len() && r@[i] == y;
                if i < j {
                    assert(old_r[i] == y);
                } else if i > j {
                    assert(old_r[i - 1] == y);
                }
            }
            if old_r.contains(y) {
                let i = choose|i: int| 0 <= i < old_r.len() && old_r[i] == y;
                if i < j {
                    assert(r@[i] == y);
                } else {
                    assert(r@[i + 1] == y);
                }
            }
            if y == x {
                assert(r@[j as int] == x);
            }
        }
    }
    r
}

/// The identities of the presets of both lists, ascending, each once.
pub fn preset_ids(a: &Vec<Preset>, b: &Vec<Preset>) -> (r: Vec<u128>)
    ensures
        r@ == ascending_ids(id_set(pviews(a@), pviews(b@))),
{
    let ghost av = pviews(a@);
    let ghost bv = pviews(b@);
    let mut r: Vec<u128> = Vec::new();
    let mut i: usize = 0;
    while i < a.len()
        invariant
            i <= a@.len(),
            ascending(r@),
            av == pviews(a@),
            forall|x: u128| r@.contains(x) <==> (exists|k: int| 0 <= k < i && av[k].id.0 == x),
        decreases a@.len() - i,
    {
        r = insert_ascending(r, a[i].id.0);
        proof {
            assert(av[i as int].id.0 == a@[i as int].id.0);
            assert forall|x: u128| r@.contains(x) <==> (exists|k: int| 0 <= k < i + 1 && av[k].id.0 == x) by {
                if x == a@[i as int].id.0 {
                    assert(av[i as int].id.0 == x);
                }
            }
        }
        i = i + 1;
    }
    let mut j: usize = 0;
    while j < b.len()
        invariant
            j <= b@.len(),
            i == a@.len(),
            ascending(r@),
            av == pviews(a@),
            bv == pviews(b@),
            forall|x: u128|
                r@.contains(x) <==> ((exists|k: int| 0 <= k < av.len() && av[k].id.0 == x) || (exists|k: int|
                    0 <= k < j && bv[k].id.0 == x)),
        decreases b@.len() - j,
    {
        r = insert_ascending(r, b[j].id.0);
        proof {
            assert(bv[j as int].id.0 == b@[j as int].id.0);
            assert forall|x: u128|
                r@.contains(x) <==> ((exists|k: int| 0 <= k < av.len() && av[k].id.0 == x) || (exists|k: int|
                    0 <= k < j + 1 && bv[k].id.0 == x)) by {
                if x == b@[j as int].id.0 {
                    assert(bv[j as int].id.0 == x);
                }
            }
        }
        j = j + 1;
    }
    proof {
        let s = id_set(av, bv);
        assert forall|y: u128| r@.contains(y) <==> s.contains(y) by {}
        lemma_ascending_ids(r@, s);
    }
    r
}

/// The presets without those of the identity.
pub open spec fn without_preset(s: Seq<PresetView>, id: PresetId) -> Seq<PresetView>
    decreases s.len(),
{
    if s.len() == 0 {
        s
    } else if s.last().id != id {
        without_preset(s.drop_last(), id).push(s.last())
    } else {
        without_preset(s.drop_last(), id)
    }
}

/// The presets with those of the identity replaced by one version of it, placed last, or by
/// none.
pub open spec fn replace_preset(s: Seq<PresetView>, id: PresetId, with: Option<PresetView>) -> Seq<
    PresetView,
> {
    match with {
        Some(p) => without_preset(s, id).push(p),
        None => without_preset(s, id),
    }
}

/// The name a refused merge reports: the draft's name for the preset, or its name before the
/// draft removed it.
pub open spec fn draft_name(from: Seq<PresetView>, to: Seq<PresetView>, id: PresetId) -> Seq<char> {
    match find_preset(to, id) {
        Some(p) => p.name,
        None => match find_preset(from, id) {
            Some(p) => p.name,
            None => Seq::empty(),
        },
    }
}

/// Why a merge is refused: the library changed a preset that the draft changed too.
pub open spec fn outside_change(name: Seq<char>) -> Seq<char> {
    "Preset '"@ + name + "' changed outside this draft. Reload the draft before applying."@
}

/// The library with a draft's authored changes, identity by identity in the order given: a
/// preset that the draft left as it found it is skipped; one the library changed since is
/// refused; otherwise the library takes the draft's version, or loses the preset.
pub open spec fn merge_over(
    lib: Seq<PresetView>,
    from: Seq<PresetView>,
    to: Seq<PresetView>,
    ids: Seq<u128>,
) -> Result<Seq<PresetView>, Seq<char>>
    decreases ids.len(),
{
    if ids.len() == 0 {
        Ok(lib)
    } else {
        let id = PresetId(ids[0]);
        let f = find_preset(from, id);
        let t = find_preset(to, id);
        if same_authored(f, t) {
            merge_over(lib, from, to, ids.drop_first())
        } else if !same_authored(find_preset(lib, id), f) {
            Err(outside_change(draft_name(from, to, id)))
        } else {
            merge_over(replace_preset(lib, id, t), from, to, ids.drop_first())
        }
    }
}

/// An optional borrowed library by value.
pub open spec fn olv(l: Option<&PresetLibrary>) -> Option<LibraryView> {
    match l {
        Some(x) => Some(x@),
        None => None,
    }
}

/// The current library with the changes a draft made from `from` to `to`, over all identities
/// of both in ascending order; the library keeps its revision.
pub open spec fn merged_changes(current: Option<LibraryView>, from: LibraryView, to: LibraryView) -> Result<
    LibraryView,
    Seq<char>,
> {
    match current {
        None => Err("Presets are still loading"@),
        Some(c) => match merge_over(
            c.presets,
            from.presets,
            to.presets,
            ascending_ids(id_set(from.presets, to.presets)),
        ) {
            Ok(p) => Ok(LibraryView { revision: c.revision, presets: p }),
            Err(e) => Err(e),
        },
    }
}

/// Removes the presets of an identity, keeping the order of the others.
pub fn remove_preset(v: &mut Vec<Preset>, id: PresetId)
    ensures
        pviews(final(v)@) == without_preset(pviews(old(v)@), id),
{
    let ghost all = pviews(v@);
    let mut kept: Vec<Preset> = Vec::new();
    let mut i: usize = 0;
    assert(all.take(0) =~= Seq::<PresetView>::empty());
    while i < v.len()
        invariant
            i <= v@.len(),
            v@ == old(v)@,
            all == pviews(old(v)@),
            pviews(kept@) == without_preset(all.take(i as int), id),
        decreases v@.len() - i,
    {
        assert(all.take(i + 1).drop_last() =~= all.take(i as int));
        assert(all.take(i + 1).last() == v@[i as int]@);
        if v[i].id != id {
            kept.push(v[i].duplicate());
            assert(pviews(kept@) =~= without_preset(all.take(i as int), id).push(
                v@[i as int]@,
            ));
        }
        i = i + 1;
    }
    assert(all.take(i as int) =~= all);
    *v = kept;
}

/// Merges only the authored changes a draft made, from `from` to `to`, onto the current
/// library: changes of revisions alone, as saves make them, are no change. A preset that the
/// library changed since the draft began is refused by name.
pub fn merge_preset_changes(current: Option<&PresetLibrary>, from: &PresetLibrary, to: &PresetLibrary) -> (r:
    Result<PresetLibrary, String>)
    ensures
        match r {
            Ok(l) => merged_changes(olv(current), from@, to@) == Ok::<LibraryView, Seq<char>>(l@),
            Err(e) => merged_changes(olv(current), from@, to@) == Err::<LibraryView, Seq<char>>(e@),
        },
{
    let c = match current {
        None => {
            return Err(String::from_str("Presets are still loading"));
        },
        Some(c) => c,
    };
    let mut library = c.duplicate();
    let ids = preset_ids(&from.presets, &to.presets);
    let ghost all = ids@;
    let ghost goal = merge_over(c@.presets, from@.presets, to@.presets, all);
    let mut k: usize = 0;
    assert(all.skip(0) =~= all);
    while k < ids.len()
        invariant
            k <= ids@.len(),
            all == ids@,
            all == ascending_ids(id_set(from@.presets, to@.presets)),
            olv(current) == Some(c@),
            library.revision == c.revision,
            goal == merge_over(c@.presets, from@.presets, to@.presets, all),
            merge_over(library@.presets, from@.presets, to@.presets, all.skip(k as int)) == goal,
        decreases ids@.len() - k,
    {
        assert(all.skip(k as int).drop_first() =~= all.skip(k + 1));
        assert(all.skip(k as int)[0] == ids@[k as int]);
        let id = PresetId(ids[k]);
        let f = from.get(id);
        let t = to.get(id);
        if !authored_same(f, t) {
            if !authored_same(library.get(id), f) {
                let mut m = String::from_str("Preset '");
                match t {
                    Some(p) => m.append(p.name.as_str()),
                    None => match f {
                        Some(p) => m.append(p.name.as_str()),
                        None => {},
                    },
                }
                m.append("' changed outside this draft. Reload the draft before applying.");
                assert(m@ == outside_change(draft_name(from@.presets, to@.presets, id)));
                assert(merge_over(library@.presets, from@.presets, to@.presets, all.skip(k as int)) == Err::<Seq<PresetView>, Seq<char>>(m@));
                assert(goal == Err::<Seq<PresetView>, Seq<char>>(m@));
                return Err(m);
            }
            let ghost before = library@.presets;
            remove_preset(&mut library.presets, id);
            match t {
                Some(p) => {
                    library.presets.push(p.duplicate());
                    assert(library@.presets =~= replace_preset(before, id, Some(p@)));
                },
                None => {},
            }
        }
        k = k + 1;
    }
    assert(all.skip(k as int) =~= Seq::<u128>::empty());
    Ok(library)
}

/// The revision a save checkpoint gives a preset: that of its version in the checkpoint, or the
/// first revision for a preset new to it.
pub open spec fn base_revision(base: Seq<PresetView>, id: PresetId) -> u64 {
    match find_preset(base, id) {
        Some(p) => p.revision,
        None => 1,
    }
}

/// A preset with the revision the checkpoint gives it.
pub open spec fn renumbered(p: PresetView, base: Seq<PresetView>) -> PresetView {
    PresetView { revision: base_revision(base, p.id), ..p }
}

/// A preset with its sort key: its identity.
pub open spec fn ranked_preset(p: PresetView) -> (Rank, PresetView) {
    ((0u8, p.id.0), p)
}

/// A local library as a save against the checkpoint expects it: the checkpoint's revisions,
/// and the presets ordered by identity (presets of one identity keep their order).
pub open spec fn normalized_library(cur: LibraryView, base: LibraryView) -> LibraryView {
    LibraryView {
        revision: base.revision,
        presets: sort_by_rank(
            cur.presets.map_values(|p: PresetView| ranked_preset(renumbered(p, base.presets))),
        ).map_values(|x: (Rank, PresetView)| x.1),
    }
}

/// Gives a local library the checkpoint's revisions and orders its presets by identity.
pub fn normalize(current: &mut PresetLibrary, base: &PresetLibrary)
    ensures
        final(current)@ == normalized_library(old(current)@, base@),
{
    let ghost cur = current@;
    let mut items: Vec<(Rank, Preset)> = Vec::new();
    let mut i: usize = 0;
    while i < current.presets.len()
        invariant
            i <= current.presets@.len(),
            current@ == cur,
            items@.len() == i,
            forall|k: int|
                0 <= k < i ==> (#[trigger] items@[k]).0 == ranked_preset(renumbered(cur.presets[k], base@.presets)).0
                    && items@[k].1@ == renumbered(cur.presets[k], base@.presets),
        decreases current.presets@.len() - i,
    {
        let p = &current.presets[i];
        let revision: u64 = match base.get(p.id) {
            Some(b) => b.revision,
            None => 1,
        };
        items.push(((0u8, p.id.0), Preset { id: p.id, revision, name: p.name.clone(), kind: copy_bytes(&p.kind) }));
        i = i + 1;
    }
    let ghost items0 = items@;
    sort_ranked(&mut items);
    let mut presets: Vec<Preset> = Vec::new();
    let mut j: usize = 0;
    while j < items.len()
        invariant
            j <= items@.len(),
            items@ == sort_by_rank(items0),
            pviews(presets@) =~= items@.take(j as int).map_values(|x: (Rank, Preset)| x.1@),
        decreases items@.len() - j,
    {
        presets.push(items[j].1.duplicate());
        assert(items@.take(j + 1).map_values(|x: (Rank, Preset)| x.1@) =~= items@.take(j as int).map_values(
            |x: (Rank, Preset)| x.1@,
        ).push(items@[j as int].1@));
        j = j + 1;
    }
    proof {
        let f = |p: Preset| p@;
        lemma_sort_by_rank_map(items0, f);
        let mapped = items0.map_values(|x: (Rank, Preset)| (x.0, f(x.1)));
        assert(mapped =~= cur.presets.map_values(|p: PresetView| ranked_preset(renumbered(p, base@.presets))));
        assert(items@.take(j as int) =~= items@);
        assert(items@.map_values(|x: (Rank, Preset)| x.1@) =~= sort_by_rank(mapped).map_values(
            |x: (Rank, PresetView)| x.1,
        ));
    }
    current.revision = base.revision;
    current.presets = presets;
}

proof fn lemma_listing_insert(q: Seq<u128>, x: u128) -> (r: Seq<u128>)
    requires
        ascending(q),
    ensures
        ascending(r),
        forall|y: u128| r.contains(y) <==> (q.contains(y) || y == x),
    decreases q.len(),
{
    if q.len() == 0 {
        let r = seq![x];
        assert(r[0] == x);
        assert forall|y: u128| r.contains(y) <==> (q.contains(y) || y == x) by {
            if r.contains(y) {
                let k = choose|k: int| 0 <= k < r.len() && r[k] == y;
                assert(k == 0);
            }
        }
        r
    } else if x <= q[0] {
        if x == q[0] {
            assert(q.contains(x));
            q
        } else {
            let r = seq![x] + q;
            assert forall|i: int, j: int| 0 <= i < j < r.len() implies r[i] < r[j] by {
                if i == 0 {
                    assert(r[j] == q[j - 1]);
                    if j - 1 > 0 {
                        assert(q[0] < q[j - 1]);
                    }
                } else {
                    assert(r[i] == q[i - 1] && r[j] == q[j - 1]);
                }
            }
            assert forall|y: u128| r.contains(y) <==> (q.contains(y) || y == x) by {
                if r.contains(y) {
                    let k = choose|k: int| 0 <= k < r.len() && r[k] == y;
                    if k > 0 {
                        assert(q[k - 1] == y);
                    }
                }
                if q.contains(y) {
                    let k = choose|k: int| 0 <= k < q.len() && q[k] == y;
                    assert(r[k + 1] == y);
                }
                if y == x {
                    assert(r[0] == x);
                }
            }
            r
        }
    } else {
        let rest = q.drop_first();
        assert(ascending(rest)) by {
            assert forall|i: int, j: int| 0 <= i < j < rest.len() implies rest[i] < rest[j] by {
                assert(rest[i] == q[i + 1] && rest[j] == q[j + 1]);
            }
        }
        let t = lemma_listing_insert(rest, x);
        let r = seq![q[0]] + t;
        assert forall|k: int| 0 <= k < t.len() implies q[0] < #[trigger] t[k] by {
            assert(t.contains(t[k]));
            if rest.contains(t[k]) {
                let m = choose|m: int| 0 <= m < rest.len() && rest[m] == t[k];
                assert(q[m + 1] == t[k]);
                assert(q[0] < q[m + 1]);
            }
        }
        assert forall|i: int, j: int| 0 <= i < j < r.len() implies r[i] < r[j] by {
            if i == 0 {
                assert(r[j] == t[j - 1]);
            } else {
                assert(r[i] == t[i - 1] && r[j] == t[j - 1]);
            }
        }
        assert forall|y: u128| r.contains(y) <==> (q.contains(y) || y == x) by {
            if r.contains(y) {
                let k = choose|k: int| 0 <= k < r.len() && r[k] == y;
                if k > 0 {
                    assert(t[k - 1] == y);
                    assert(t.contains(y));
                    if rest.contains(y) {
                        let m = choose|m: int| 0 <= m < rest.len() && rest[m] == y;
                        assert(q[m + 1] == y);
                    }
                } else {
                    assert(q[0] == y);
                }
            }
            if q.contains(y) {
                let k = choose|k: int| 0 <= k < q.len() && q[k] == y;
                if k == 0 {
                    assert(r[0] == y);
                } else {
                    assert(rest[k - 1] == y);
                    assert(t.contains(y));
                    let m = choose|m: int| 0 <= m < t.len() && t[m] == y;
                    assert(r[m + 1] == y);
                }
            }
            if y == x {
                assert(t.contains(x));
                let m = choose|m: int| 0 <= m < t.len() && t[m] == x;
                assert(r[m + 1] == x);
            }
        }
        r
    }
}

proof fn lemma_id_set_listed(a: Seq<PresetView>, b: Seq<PresetView>)
    ensures
        exists|q: Seq<u128>| lists_ascending(q, id_set(a, b)),
    decreases a.len() + b.len(),
{
    if a.len() == 0 && b.len() == 0 {
        let q = Seq::<u128>::empty();
        assert(lists_ascending(q, id_set(a, b)));
    } else if b.len() > 0 {
        lemma_id_set_listed(a, b.drop_last());
        let q = choose|q: Seq<u128>| lists_ascending(q, id_set(a, b.drop_last()));
        let r = lemma_listing_insert(q, b.last().id.0);
        assert forall|y: u128| r.contains(y) <==> id_set(a, b).contains(y) by {
            if id_set(a, b).contains(y) && !(exists|i: int| 0 <= i < a.len() && a[i].id.0 == y) {
                let j = choose|j: int| 0 <= j < b.len() && b[j].id.0 == y;
                if j < b.len() - 1 {
                    assert(b.drop_last()[j].id.0 == y);
                }
            }
            if id_set(a, b.drop_last()).contains(y) && !(exists|i: int| 0 <= i < a.len() && a[i].id.0 == y) {
                let j = choose|j: int| 0 <= j < b.drop_last().len() && b.drop_last()[j].id.0 == y;
                assert(b[j].id.0 == y);
            }
        }
        assert(lists_ascending(r, id_set(a, b)));
    } else {
        lemma_id_set_listed(a.drop_last(), b);
        let q = choose|q: Seq<u128>| lists_ascending(q, id_set(a.drop_last(), b));
        let r = lemma_listing_insert(q, a.last().id.0);
        assert forall|y: u128| r.contains(y) <==> id_set(a, b).contains(y) by {
            if id_set(a, b).contains(y) {
                let i = choose|i: int| 0 <= i < a.len() && a[i].id.0 == y;
                if i < a.len() - 1 {
                    assert(a.drop_last()[i].id.0 == y);
                }
            }
            if id_set(a.drop_last(), b).contains(y) {
                let i = choose|i: int| 0 <= i < a.drop_last().len() && a.drop_last()[i].id.0 == y;
                assert(a[i].id.0 == y);
            }
        }
        assert(lists_ascending(r, id_set(a, b)));
    }
}

proof fn lemma_find_member(s: Seq<PresetView>, id: PresetId)
    ensures
        find_preset(s, id) is Some ==> exists|i: int| 0 <= i < s.len() && s[i].id.0 == id.0,
    decreases s.len(),
{
    if s.len() > 0 {
        if s[0].id == id {
            assert(s[0].id.0 == id.0);
        } else {
            lemma_find_member(s.drop_first(), id);
            if find_preset(s, id) is Some {
                let i = choose|i: int| 0 <= i < s.drop_first().len() && s.drop_first()[i].id.0 == id.0;
                assert(s[i + 1].id.0 == id.0);
            }
        }
    }
}

proof fn lemma_absent_unchanged(from: Seq<PresetView>, to: Seq<PresetView>, id: PresetId)
    requires
        !id_set(from, to).contains(id.0),
    ensures
        same_authored(find_preset(from, id), find_preset(to, id)),
{
    lemma_find_member(from, id);
    lemma_find_member(to, id);
}

proof fn lemma_find_id(s: Seq<PresetView>, id: PresetId)
    ensures
        find_preset(s, id) matches Some(p) ==> p.id == id,
    decreases s.len(),
{
    if s.len() > 0 && s[0].id != id {
        lemma_find_id(s.drop_first(), id);
    }
}

proof fn lemma_find_push(s: Seq<PresetView>, p: PresetView, id: PresetId)
    ensures
        find_preset(s.push(p), id) == (match find_preset(s, id) {
            Some(q) => Some(q),
            None => if p.id == id {
                Some(p)
            } else {
                None
            },
        }),
    decreases s.len(),
{
    if s.len() == 0 {
        assert(s.push(p)[0] == p);
        assert(s.push(p).drop_first() =~= Seq::<PresetView>::empty());
        assert(find_preset(Seq::<PresetView>::empty(), id) is None);
    } else {
        assert(s.push(p).drop_first() =~= s.drop_first().push(p));
        assert(s.push(p)[0] == s[0]);
        if s[0].id != id {
            lemma_find_push(s.drop_first(), p, id);
        }
    }
}

proof fn lemma_find_without(s: Seq<PresetView>, id: PresetId, other: PresetId)
    ensures
        find_preset(without_preset(s, id), other) == (if other == id {
            None
        } else {
            find_preset(s, other)
        }),
    decreases s.len(),
{
    if s.len() > 0 {
        lemma_find_without(s.drop_last(), id, other);
        lemma_find_push(s.drop_last(), s.last(), other);
        assert(s.drop_last().push(s.last()) =~= s);
        if s.last().id != id {
            lemma_find_push(without_preset(s.drop_last(), id), s.last(), other);
        }
    }
}

proof fn lemma_find_replace(s: Seq<PresetView>, id: PresetId, with: Option<PresetView>, other: PresetId)
    requires
        with matches Some(w) ==> w.id == id,
    ensures
        find_preset(replace_preset(s, id, with), other) == (if other == id {
            with
        } else {
            find_preset(s, other)
        }),
{
    lemma_find_without(s, id, other);
    if let Some(w) = with {
        lemma_find_push(without_preset(s, id), w, other);
    }
}

proof fn lemma_merge_unchanged(lib: Seq<PresetView>, x: Seq<PresetView>, ids: Seq<u128>)
    ensures
        merge_over(lib, x, x, ids) == Ok::<Seq<PresetView>, Seq<char>>(lib),
    decreases ids.len(),
{
    if ids.len() > 0 {
        lemma_merge_unchanged(lib, x, ids.drop_first());
    }
}

proof fn lemma_merge_versions(
    lib: Seq<PresetView>,
    from: Seq<PresetView>,
    to: Seq<PresetView>,
    ids: Seq<u128>,
    id: PresetId,
)
    requires
        ascending(ids),
        merge_over(lib, from, to, ids) is Ok,
    ensures
        find_preset(merge_over(lib, from, to, ids)->Ok_0, id) == (if ids.contains(id.0) && !same_authored(
            find_preset(from, id),
            find_preset(to, id),
        ) {
            find_preset(to, id)
        } else {
            find_preset(lib, id)
        }),
    decreases ids.len(),
{
    if ids.len() > 0 {
        let rest = ids.drop_first();
        assert(ascending(rest)) by {
            assert forall|i: int, j: int| 0 <= i < j < rest.len() implies rest[i] < rest[j] by {
                assert(rest[i] == ids[i + 1] && rest[j] == ids[j + 1]);
            }
        }
        let first = PresetId(ids[0]);
        let t = find_preset(to, first);
        lemma_find_id(to, first);
        assert(ids.contains(id.0) <==> (id.0 == ids[0] || rest.contains(id.0))) by {
            if ids.contains(id.0) && id.0 != ids[0] {
                let k = choose|k: int| 0 <= k < ids.len() && ids[k] == id.0;
                assert(rest[k - 1] == id.0);
            }
            if rest.contains(id.0) {
                let k = choose|k: int| 0 <= k < rest.len() && rest[k] == id.0;
                assert(ids[k + 1] == id.0);
            }
        }
        assert(!rest.contains(ids[0])) by {
            if rest.contains(ids[0]) {
                let k = choose|k: int| 0 <= k < rest.len() && rest[k] == ids[0];
                assert(ids[k + 1] == ids[0]);
                assert(ids[0] < ids[k + 1]);
            }
        }
        if same_authored(find_preset(from, first), t) {
            lemma_merge_versions(lib, from, to, rest, id);
        } else {
            let next = replace_preset(lib, first, t);
            lemma_merge_versions(next, from, to, rest, id);
            lemma_find_replace(lib, first, t, id);
        }
    }
}

/// Merging a draft that changed nothing leaves the library as it is.
pub proof fn law_unchanged_draft_merges_to_current(current: LibraryView, draft: LibraryView)
    ensures
        merged_changes(Some(current), draft, draft) == Ok::<LibraryView, Seq<char>>(current),
{
    lemma_merge_unchanged(current.presets, draft.presets, ascending_ids(id_set(draft.presets, draft.presets)));
}

/// A merge owns only what the draft changed: each preset whose authored content the draft
/// changed takes the draft's version (or is gone with it), and every other preset of the
/// library stays as it was, unrelated changes adopted since included.
pub proof fn law_merge_takes_only_draft_changes(
    current: LibraryView,
    from: LibraryView,
    to: LibraryView,
    id: PresetId,
)
    requires
        merged_changes(Some(current), from, to) is Ok,
    ensures
        find_preset(merged_changes(Some(current), from, to)->Ok_0.presets, id) == (if !same_authored(
            find_preset(from.presets, id),
            find_preset(to.presets, id),
        ) {
            find_preset(to.presets, id)
        } else {
            find_preset(current.presets, id)
        }),
        merged_changes(Some(current), from, to)->Ok_0.revision == current.revision,
{
    let s = id_set(from.presets, to.presets);
    let ids = ascending_ids(s);
    assert(exists|q: Seq<u128>| lists_ascending(q, s)) by {
        lemma_id_set_listed(from.presets, to.presets);
    }
    assert(lists_ascending(ids, s));
    lemma_merge_versions(current.presets, from.presets, to.presets, ids, id);
    if !ids.contains(id.0) {
        assert(!s.contains(id.0));
        lemma_absent_unchanged(from.presets, to.presets, id);
    }
}

/// A found preset has the identity it was looked up by.
pub proof fn lemma_find_id_pub(s: Seq<PresetView>, id: PresetId)
    ensures
        find_preset(s, id) matches Some(p) ==> p.id == id,
{
    lemma_find_id(s, id);
}

/// Replacing the presets of one identity leaves the lookup of every other identity alone.
pub proof fn lemma_find_replace_pub(s: Seq<PresetView>, id: PresetId, with: Option<PresetView>, other: PresetId)
    requires
        with matches Some(w) ==> w.id == id,
    ensures
        find_preset(replace_preset(s, id, with), other) == (if other == id {
            with
        } else {
            find_preset(s, other)
        }),
{
    lemma_find_replace(s, id, with, other);
}

/// The identities of two lists have an ascending listing, which `ascending_ids` names.
pub proof fn lemma_ids_listed(a: Seq<PresetView>, b: Seq<PresetView>)
    ensures
        lists_ascending(ascending_ids(id_set(a, b)), id_set(a, b)),
{
    lemma_id_set_listed(a, b);
}

/// An identity of neither list is found in neither.
pub proof fn lemma_absent_same(a: Seq<PresetView>, b: Seq<PresetView>, id: PresetId)
    requires
        !ascending_ids(id_set(a, b)).contains(id.0),
    ensures
        find_preset(a, id) is None && find_preset(b, id) is None,
{
    lemma_id_set_listed(a, b);
    lemma_find_member(a, id);
    lemma_find_member(b, id);
}

} // verus!
