//! Query-backed, cursor-paginated project navigation for the outliner and the asset palette.
//! The store keeps one pending request per list, at most one request in flight, a bounded
//! history of earlier page cursors, and drops every result that is not the newest answer.

use vstd::prelude::*;
use vstd::string::StrSliceExecFns;
use crate::project_store::{next_id, SendOutcome};
use crate::world::WorldSpaceId;

verus! {

/// Records asked for per page.
pub const NAVIGATION_PAGE_SIZE: usize = 64;

/// Requests the worker queue holds.
pub const NAVIGATION_REQUEST_CAPACITY: usize = 2;

/// Earlier page cursors remembered per list.
pub const MAX_CURSOR_HISTORY: usize = 32;

/// The characters with the Unicode White_Space property.
pub open spec fn is_white_space(c: char) -> bool {
    let n = c as u32;
    ||| 0x9 <= n <= 0xd
    ||| n == 0x20
    ||| n == 0x85
    ||| n == 0xa0
    ||| n == 0x1680
    ||| 0x2000 <= n <= 0x200a
    ||| n == 0x2028
    ||| n == 0x2029
    ||| n == 0x202f
    ||| n == 0x205f
    ||| n == 0x3000
}

/// The text without its leading white space.
pub open spec fn trim_start(s: Seq<char>) -> Seq<char>
    decreases s.len(),
{
    if s.len() > 0 && is_white_space(s[0]) {
        trim_start(s.drop_first())
    } else {
        s
    }
}

/// The text without its trailing white space.
pub open spec fn trim_end(s: Seq<char>) -> Seq<char>
    decreases s.len(),
{
    if s.len() > 0 && is_white_space(s.last()) {
        trim_end(s.drop_last())
    } else {
        s
    }
}

/// The text without leading and trailing white space.
pub open spec fn trimmed(s: Seq<char>) -> Seq<char> {
    trim_end(trim_start(s))
}

fn white_space(c: char) -> (r: bool)
    ensures
        r == is_white_space(c),
{
    let n = c as u32;
    (0x9 <= n && n <= 0xd) || n == 0x20 || n == 0x85 || n == 0xa0 || n == 0x1680 || (0x2000 <= n && n
        <= 0x200a) || n == 0x2028 || n == 0x2029 || n == 0x202f || n == 0x205f || n == 0x3000
}

/// Leading white space ends where the first other character stands.
proof fn lemma_trim_start_at(s: Seq<char>, a: int)
    requires
        0 <= a <= s.len(),
        forall|k: int| 0 <= k < a ==> is_white_space(#[trigger] s[k]),
        a == s.len() || !is_white_space(s[a]),
    ensures
        trim_start(s) == s.skip(a),
    decreases a,
{
    if a == 0 {
        assert(s.skip(0) =~= s);
    } else {
        let t = s.drop_first();
        assert forall|k: int| 0 <= k < a - 1 implies is_white_space(#[trigger] t[k]) by {
            assert(t[k] == s[k + 1]);
        }
        if a - 1 < t.len() {
            assert(t[a - 1] == s[a]);
        }
        lemma_trim_start_at(t, a - 1);
        assert(t.skip(a - 1) =~= s.skip(a));
    }
}

/// Trailing white space starts after the last other character.
proof fn lemma_trim_end_at(s: Seq<char>, b: int)
    requires
        0 <= b <= s.len(),
        forall|k: int| b <= k < s.len() ==> is_white_space(#[trigger] s[k]),
        b == 0 || !is_white_space(s[b - 1]),
    ensures
        trim_end(s) == s.take(b),
    decreases s.len() - b,
{
    if b == s.len() {
        assert(s.take(b) =~= s);
    } else {
        let t = s.drop_last();
        assert forall|k: int| b <= k < t.len() implies is_white_space(#[trigger] t[k]) by {
            assert(t[k] == s[k]);
        }
        if b > 0 {
            assert(t[b - 1] == s[b - 1]);
        }
        assert(is_white_space(s[s.len() - 1]));
        lemma_trim_end_at(t, b);
        assert(t.take(b) =~= s.take(b));
    }
}

/// The text without leading and trailing characters with the Unicode White_Space property, as
/// `str::trim` gives it.
fn trim_text<'a>(s: &'a str) -> (t: &'a str)
    ensures
        t@ == trimmed(s@),
{
    let n = s.unicode_len();
    let mut a: usize = 0;
    while a < n && white_space(s.get_char(a))
        invariant
            a <= n,
            n == s@.len(),
            forall|k: int| 0 <= k < a ==> is_white_space(#[trigger] s@[k]),
        decreases n - a,
    {
        a = a + 1;
    }
    let mut b: usize = n;
    while b > a && white_space(s.get_char(b - 1))
        invariant
            a <= b <= n,
            n == s@.len(),
            forall|k: int| b <= k < n ==> is_white_space(#[trigger] s@[k]),
        decreases b - a,
    {
        b = b - 1;
    }
    proof {
        lemma_trim_start_at(s@, a as int);
        let rest = s@.skip(a as int);
        assert forall|k: int| b - a <= k < rest.len() implies is_white_space(#[trigger] rest[k]) by {
            assert(rest[k] == s@[k + a]);
        }
        if b > a {
            assert(rest[b - a - 1] == s@[b - 1]);
        }
        lemma_trim_end_at(rest, b - a);
        assert(rest.take(b - a) =~= s@.subrange(a as int, b as int));
    }
    s.substring_char(a, b)
}

/// Both options are empty, or both hold values of which the second is a clone of the first.
pub open spec fn opt_cloned<T: Clone>(a: Option<T>, b: Option<T>) -> bool {
    match (a, b) {
        (None, None) => true,
        (Some(x), Some(y)) => cloned(x, y),
        _ => false,
    }
}

/// What a navigation request asks for.
#[derive(Debug)]
pub enum NavigationRequestKind<PC, OC> {
    Palette { search: String, cursor: Option<PC> },
    Outliner { space: WorldSpaceId, search: String, cursor: Option<OC> },
}

/// A navigation request and its identity.
#[derive(Debug)]
pub struct NavigationRequest<PC, OC> {
    pub id: u64,
    pub kind: NavigationRequestKind<PC, OC>,
}

/// What a navigation request asks for, with its search text as characters.
pub enum RequestKindView<PC, OC> {
    Palette { search: Seq<char>, cursor: Option<PC> },
    Outliner { space: WorldSpaceId, search: Seq<char>, cursor: Option<OC> },
}

/// A navigation request as the contracts see it.
pub struct RequestView<PC, OC> {
    pub id: u64,
    pub kind: RequestKindView<PC, OC>,
}

impl<PC, OC> View for NavigationRequest<PC, OC> {
    type V = RequestView<PC, OC>;

    open spec fn view(&self) -> RequestView<PC, OC> {
        RequestView {
            id: self.id,
            kind: match self.kind {
                NavigationRequestKind::Palette { search, cursor } => RequestKindView::Palette {
                    search: search@,
                    cursor,
                },
                NavigationRequestKind::Outliner { space, search, cursor } => RequestKindView::Outliner {
                    space,
                    search: search@,
                    cursor,
                },
            },
        }
    }
}

/// One page of a list, with the cursor of the page after it.
pub struct NavigationPage<C, R> {
    pub records: Vec<R>,
    pub next_cursor: Option<C>,
}

/// The abstract state of the navigation store.
pub struct NavigationView<PC, OC, PR, OR> {
    pub status: Seq<char>,
    pub next_request_id: u64,
    pub latest_palette_id: u64,
    pub latest_outliner_id: u64,
    pub pending_palette: Option<RequestView<PC, OC>>,
    pub pending_outliner: Option<RequestView<PC, OC>>,
    pub in_flight: Option<u64>,
    pub palette_search: Seq<char>,
    pub palette_records: Seq<PR>,
    pub palette_cursor: Option<PC>,
    pub palette_next: Option<PC>,
    pub palette_history: Seq<Option<PC>>,
    pub outliner_space: Option<WorldSpaceId>,
    pub outliner_search: Seq<char>,
    pub outliner_records: Seq<OR>,
    pub outliner_cursor: Option<OC>,
    pub outliner_next: Option<OC>,
    pub outliner_history: Seq<Option<OC>>,
    pub stale_results: u64,
}

/// The history after remembering one more cursor: the oldest is forgotten when it is full.
pub open spec fn pushed_bounded<T>(history: Seq<T>, value: T) -> Seq<T> {
    if history.len() == MAX_CURSOR_HISTORY {
        history.drop_first().push(value)
    } else {
        history.push(value)
    }
}

/// The store after queueing a palette request for the page at the cursor.
pub open spec fn queued_palette<PC, OC, PR, OR>(
    s: NavigationView<PC, OC, PR, OR>,
    cursor: Option<PC>,
) -> NavigationView<PC, OC, PR, OR> {
    let id = next_id(s.next_request_id);
    NavigationView {
        next_request_id: id,
        latest_palette_id: id,
        pending_palette: Some(
            RequestView { id, kind: RequestKindView::Palette { search: s.palette_search, cursor } },
        ),
        ..s
    }
}

/// The store after queueing an outliner request for the page at the cursor; nothing is queued
/// while no world space is followed.
pub open spec fn queued_outliner<PC, OC, PR, OR>(
    s: NavigationView<PC, OC, PR, OR>,
    cursor: Option<OC>,
) -> NavigationView<PC, OC, PR, OR> {
    match s.outliner_space {
        None => s,
        Some(space) => {
            let id = next_id(s.next_request_id);
            NavigationView {
                next_request_id: id,
                latest_outliner_id: id,
                pending_outliner: Some(
                    RequestView {
                        id,
                        kind: RequestKindView::Outliner { space, search: s.outliner_search, cursor },
                    },
                ),
                ..s
            }
        },
    }
}

/// The store after a result that is not the answer to the newest request of its list.
pub open spec fn dropped_stale<PC, OC, PR, OR>(
    s: NavigationView<PC, OC, PR, OR>,
    id: u64,
) -> NavigationView<PC, OC, PR, OR> {
    NavigationView {
        stale_results: if s.stale_results == u64::MAX { u64::MAX } else { (s.stale_results + 1) as u64 },
        in_flight: if s.in_flight == Some(id) { None } else { s.in_flight },
        ..s
    }
}

/// The message shown while no status was set.
pub open spec fn opening_message() -> Seq<char> {
    "opening navigation queries"@
}

/// A bounded history never grows past its bound, and ends with the newest value.
pub proof fn law_history_stays_bounded<T>(history: Seq<T>, value: T)
    requires
        history.len() <= MAX_CURSOR_HISTORY,
    ensures
        pushed_bounded(history, value).len() <= MAX_CURSOR_HISTORY,
        pushed_bounded(history, value).last() == value,
        history.len() < MAX_CURSOR_HISTORY ==> pushed_bounded(history, value).drop_last() == history,
{
    if history.len() < MAX_CURSOR_HISTORY {
        assert(history.push(value).drop_last() =~= history);
    }
}

/// A newly queued request supersedes the previous one of its list: it is the pending request
/// and the newest, its identity is never zero and differs from the one handed out last, and the
/// shown page stays until its answer arrives.
pub proof fn law_new_request_supersedes<PC, OC, PR, OR>(
    s: NavigationView<PC, OC, PR, OR>,
    cursor: Option<PC>,
)
    ensures
        queued_palette(s, cursor).pending_palette->0.id == queued_palette(s, cursor).latest_palette_id,
        queued_palette(s, cursor).latest_palette_id != s.next_request_id,
        queued_palette(s, cursor).latest_palette_id != 0,
        queued_palette(s, cursor).palette_records == s.palette_records,
{
}

/// The navigation store of the outliner and the asset palette.
pub struct ProjectNavigationStore<PC, OC, PR, OR> {
    status: String,
    next_request_id: u64,
    latest_palette_id: u64,
    latest_outliner_id: u64,
    pending_palette: Option<NavigationRequest<PC, OC>>,
    pending_outliner: Option<NavigationRequest<PC, OC>>,
    in_flight: Option<u64>,
    palette_search: String,
    palette_records: Vec<PR>,
    palette_cursor: Option<PC>,
    palette_next: Option<PC>,
    palette_history: Vec<Option<PC>>,
    outliner_space: Option<WorldSpaceId>,
    outliner_search: String,
    outliner_records: Vec<OR>,
    outliner_cursor: Option<OC>,
    outliner_next: Option<OC>,
    outliner_history: Vec<Option<OC>>,
    stale_results: u64,
}

pub open spec fn opt_request_view<PC, OC>(r: Option<NavigationRequest<PC, OC>>) -> Option<RequestView<PC, OC>> {
    match r {
        None => None,
        Some(r) => Some(r@),
    }
}

impl<PC, OC, PR, OR> View for ProjectNavigationStore<PC, OC, PR, OR> {
    type V = NavigationView<PC, OC, PR, OR>;

    closed spec fn view(&self) -> NavigationView<PC, OC, PR, OR> {
        NavigationView {
            status: self.status@,
            next_request_id: self.next_request_id,
            latest_palette_id: self.latest_palette_id,
            latest_outliner_id: self.latest_outliner_id,
            pending_palette: opt_request_view(self.pending_palette),
            pending_outliner: opt_request_view(self.pending_outliner),
            in_flight: self.in_flight,
            palette_search: self.palette_search@,
            palette_records: self.palette_records@,
            palette_cursor: self.palette_cursor,
            palette_next: self.palette_next,
            palette_history: self.palette_history@,
            outliner_space: self.outliner_space,
            outliner_search: self.outliner_search@,
            outliner_records: self.outliner_records@,
            outliner_cursor: self.outliner_cursor,
            outliner_next: self.outliner_next,
            outliner_history: self.outliner_history@,
            stale_results: self.stale_results,
        }
    }
}

/// The store's invariant: pending requests sit in the slot of their list, and the cursor
/// histories stay within their bound.
pub open spec fn navigation_inv<PC, OC, PR, OR>(s: NavigationView<PC, OC, PR, OR>) -> bool {
    &&& s.palette_history.len() <= MAX_CURSOR_HISTORY
    &&& s.outliner_history.len() <= MAX_CURSOR_HISTORY
    &&& (s.pending_palette matches Some(r) ==> r.kind is Palette)
    &&& (s.pending_outliner matches Some(r) ==> r.kind is Outliner)
}

/// Remembers a value at the end of a history, forgetting the oldest when the history is full.
pub fn push_bounded<T>(history: &mut Vec<T>, value: T)
    ensures
        final(history)@ == pushed_bounded(old(history)@, value),
{
    if history.len() == MAX_CURSOR_HISTORY {
        history.remove(0);
    }
    history.push(value);
    proof {
        if old(history)@.len() == MAX_CURSOR_HISTORY {
            assert(old(history)@.remove(0) =~= old(history)@.drop_first());
        }
    }
}

fn text(s: &str) -> (r: String)
    ensures
        r@ == s@,
{
    s.to_owned()
}

fn message(prefix: &str, detail: &str) -> (r: String)
    ensures
        r@ == prefix@ + detail@,
{
    let mut r = text(prefix);
    r.append(detail);
    r
}

impl<PC: Clone, OC: Clone, PR, OR> ProjectNavigationStore<PC, OC, PR, OR> {
    /// The internal invariant, which every operation keeps.
    pub open spec fn wf(&self) -> bool {
        navigation_inv(self@)
    }

    /// A store with nothing loaded or queued.
    pub fn new() -> (s: Self)
        ensures
            s.wf(),
            s@.status.len() == 0,
            s@.next_request_id == 0 && s@.latest_palette_id == 0 && s@.latest_outliner_id == 0,
            s@.pending_palette is None && s@.pending_outliner is None && s@.in_flight is None,
            s@.palette_search.len() == 0 && s@.outliner_search.len() == 0,
            s@.palette_records.len() == 0 && s@.outliner_records.len() == 0,
            s@.palette_cursor is None && s@.palette_next is None && s@.palette_history.len() == 0,
            s@.outliner_space is None,
            s@.outliner_cursor is None && s@.outliner_next is None && s@.outliner_history.len() == 0,
            s@.stale_results == 0,
    {
        ProjectNavigationStore {
            status: String::new(),
            next_request_id: 0,
            latest_palette_id: 0,
            latest_outliner_id: 0,
            pending_palette: None,
            pending_outliner: None,
            in_flight: None,
            palette_search: String::new(),
            palette_records: Vec::new(),
            palette_cursor: None,
            palette_next: None,
            palette_history: Vec::new(),
            outliner_space: None,
            outliner_search: String::new(),
            outliner_records: Vec::new(),
            outliner_cursor: None,
            outliner_next: None,
            outliner_history: Vec::new(),
            stale_results: 0,
        }
    }

    /// The status line; a placeholder until the worker has answered.
    pub fn status(&self) -> (r: &str)
        ensures
            r@ == (if self@.status.len() == 0 { opening_message() } else { self@.status }),
    {
        if self.status.as_str().is_empty() {
            "opening navigation queries"
        } else {
            self.status.as_str()
        }
    }

    /// The search text of the palette.
    pub fn palette_search(&self) -> (r: &str)
        ensures
            r@ == self@.palette_search,
    {
        self.palette_search.as_str()
    }

    /// The records of the shown palette page.
    pub fn palette_records(&self) -> (r: &[PR])
        ensures
            r@ == self@.palette_records,
    {
        self.palette_records.as_slice()
    }

    /// The search text of the outliner.
    pub fn outliner_search(&self) -> (r: &str)
        ensures
            r@ == self@.outliner_search,
    {
        self.outliner_search.as_str()
    }

    /// The records of the shown outliner page.
    pub fn outliner_records(&self) -> (r: &[OR])
        ensures
            r@ == self@.outliner_records,
    {
        self.outliner_records.as_slice()
    }

    /// The request waiting to be sent for the palette.
    pub fn pending_palette(&self) -> (r: Option<&NavigationRequest<PC, OC>>)
        ensures
            match (r, self@.pending_palette) {
                (None, None) => true,
                (Some(q), Some(v)) => q@ == v,
                _ => false,
            },
    {
        self.pending_palette.as_ref()
    }

    /// The request waiting to be sent for the outliner.
    pub fn pending_outliner(&self) -> (r: Option<&NavigationRequest<PC, OC>>)
        ensures
            match (r, self@.pending_outliner) {
                (None, None) => true,
                (Some(q), Some(v)) => q@ == v,
                _ => false,
            },
    {
        self.pending_outliner.as_ref()
    }

    /// The identity of the request the worker is answering.
    pub fn in_flight(&self) -> (r: Option<u64>)
        ensures
            r == self@.in_flight,
    {
        self.in_flight
    }

    fn queue_palette(&mut self, cursor: Option<PC>)
        requires
            old(self).wf(),
        ensures
            final(self).wf(),
            final(self)@ == queued_palette(old(self)@, cursor),
    {
        let id = crate::project_store::bump(self.next_request_id);
        self.next_request_id = id;
        self.latest_palette_id = id;
        let search = self.palette_search.clone();
        self.pending_palette = Some(
            NavigationRequest { id, kind: NavigationRequestKind::Palette { search, cursor } },
        );
    }

    fn queue_outliner(&mut self, cursor: Option<OC>)
        requires
            old(self).wf(),
        ensures
            final(self).wf(),
            final(self)@ == queued_outliner(old(self)@, cursor),
    {
        let space = match self.outliner_space {
            None => return,
            Some(space) => space,
        };
        let id = crate::project_store::bump(self.next_request_id);
        self.next_request_id = id;
        self.latest_outliner_id = id;
        let search = self.outliner_search.clone();
        self.pending_outliner = Some(
            NavigationRequest { id, kind: NavigationRequestKind::Outliner { space, search, cursor } },
        );
    }

    /// Searches the palette for the trimmed text; an unchanged search does nothing, a new one
    /// forgets the page history and queues its first page.
    pub fn search_palette(&mut self, search: String)
        requires
            old(self).wf(),
        ensures
            final(self).wf(),
            trimmed(search@) == old(self)@.palette_search ==> final(self)@ == old(self)@,
            trimmed(search@) != old(self)@.palette_search ==> final(self)@ == queued_palette(
                NavigationView {
                    palette_search: trimmed(search@),
                    palette_history: Seq::empty(),
                    ..old(self)@
                },
                None,
            ),
    {
        let search = trim_text(search.as_str()).to_owned();
        if self.palette_search.eq(&search) {
            return;
        }
        self.palette_search = search;
        self.palette_history.clear();
        self.queue_palette(None);
    }

    /// Searches the outliner for the trimmed text; an unchanged search does nothing, a new one
    /// forgets the page history and queues its first page.
    pub fn search_outliner(&mut self, search: String)
        requires
            old(self).wf(),
        ensures
            final(self).wf(),
            trimmed(search@) == old(self)@.outliner_search ==> final(self)@ == old(self)@,
            trimmed(search@) != old(self)@.outliner_search ==> final(self)@ == queued_outliner(
                NavigationView {
                    outliner_search: trimmed(search@),
                    outliner_history: Seq::empty(),
                    ..old(self)@
                },
                None,
            ),
    {
        let search = trim_text(search.as_str()).to_owned();
        if self.outliner_search.eq(&search) {
            return;
        }
        self.outliner_search = search;
        self.outliner_history.clear();
        self.queue_outliner(None);
    }

    /// Queues the next palette page, remembering the shown page's cursor.
    pub fn palette_next(&mut self)
        requires
            old(self).wf(),
        ensures
            final(self).wf(),
            old(self)@.palette_next is None ==> final(self)@ == old(self)@,
            old(self)@.palette_next is Some ==> exists|shown: Option<PC>, next: PC|
                opt_cloned(old(self)@.palette_cursor, shown) && cloned(old(self)@.palette_next->0, next)
                    && final(self)@ == queued_palette(
                    NavigationView {
                        palette_history: pushed_bounded(old(self)@.palette_history, shown),
                        ..old(self)@
                    },
                    Some(next),
                ),
    {
        let next = match self.palette_next.clone() {
            None => return,
            Some(next) => next,
        };
        let ghost start = self@;
        let shown = self.palette_cursor.clone();
        let ghost g_shown = shown;
        let ghost g_next = next;
        push_bounded(&mut self.palette_history, shown);
        self.queue_palette(Some(next));
        assert(opt_cloned(start.palette_cursor, g_shown));
        assert(self@ == queued_palette(
            NavigationView { palette_history: pushed_bounded(start.palette_history, g_shown), ..start },
            Some(g_next),
        ));
    }

    /// Queues the palette page before the shown one.
    pub fn palette_previous(&mut self)
        requires
            old(self).wf(),
        ensures
            final(self).wf(),
            old(self)@.palette_history.len() == 0 ==> final(self)@ == old(self)@,
            old(self)@.palette_history.len() > 0 ==> final(self)@ == queued_palette(
                NavigationView { palette_history: old(self)@.palette_history.drop_last(), ..old(self)@ },
                old(self)@.palette_history.last(),
            ),
    {
        match self.palette_history.pop() {
            None => {},
            Some(previous) => self.queue_palette(previous),
        }
    }

    /// Queues the next outliner page, remembering the shown page's cursor.
    pub fn outliner_next(&mut self)
        requires
            old(self).wf(),
        ensures
            final(self).wf(),
            old(self)@.outliner_next is None ==> final(self)@ == old(self)@,
            old(self)@.outliner_next is Some ==> exists|shown: Option<OC>, next: OC|
                opt_cloned(old(self)@.outliner_cursor, shown) && cloned(old(self)@.outliner_next->0, next)
                    && final(self)@ == queued_outliner(
                    NavigationView {
                        outliner_history: pushed_bounded(old(self)@.outliner_history, shown),
                        ..old(self)@
                    },
                    Some(next),
                ),
    {
        let next = match self.outliner_next.clone() {
            None => return,
            Some(next) => next,
        };
        let ghost start = self@;
        let shown = self.outliner_cursor.clone();
        let ghost g_shown = shown;
        let ghost g_next = next;
        push_bounded(&mut self.outliner_history, shown);
        self.queue_outliner(Some(next));
        assert(opt_cloned(start.outliner_cursor, g_shown));
        assert(self@ == queued_outliner(
            NavigationView { outliner_history: pushed_bounded(start.outliner_history, g_shown), ..start },
            Some(g_next),
        ));
    }

    /// Queues the outliner page before the shown one.
    pub fn outliner_previous(&mut self)
        requires
            old(self).wf(),
        ensures
            final(self).wf(),
            old(self)@.outliner_history.len() == 0 ==> final(self)@ == old(self)@,
            old(self)@.outliner_history.len() > 0 ==> final(self)@ == queued_outliner(
                NavigationView { outliner_history: old(self)@.outliner_history.drop_last(), ..old(self)@ },
                old(self)@.outliner_history.last(),
            ),
    {
        match self.outliner_history.pop() {
            None => {},
            Some(previous) => self.queue_outliner(previous),
        }
    }

    /// Whether an earlier palette page can be shown.
    pub fn palette_has_previous(&self) -> (r: bool)
        ensures
            r == (self@.palette_history.len() > 0),
    {
        self.palette_history.len() > 0
    }

    /// Whether a later palette page exists.
    pub fn palette_has_next(&self) -> (r: bool)
        ensures
            r == (self@.palette_next is Some),
    {
        self.palette_next.is_some()
    }

    /// Whether an earlier outliner page can be shown.
    pub fn outliner_has_previous(&self) -> (r: bool)
        ensures
            r == (self@.outliner_history.len() > 0),
    {
        self.outliner_history.len() > 0
    }

    /// Whether a later outliner page exists.
    pub fn outliner_has_next(&self) -> (r: bool)
        ensures
            r == (self@.outliner_next is Some),
    {
        self.outliner_next.is_some()
    }

    /// How many results were dropped as stale.
    pub fn stale_results(&self) -> (n: u64)
        ensures
            n == self@.stale_results,
    {
        self.stale_results
    }

    /// Takes in the worker's answer to opening the project: on success the first palette page
    /// is queued.
    pub fn opened(&mut self, result: Result<(), String>)
        requires
            old(self).wf(),
        ensures
            final(self).wf(),
            result is Ok ==> final(self)@ == queued_palette(
                NavigationView { status: "navigation ready"@, ..old(self)@ },
                None,
            ),
            result matches Err(e) ==> final(self)@ == (NavigationView {
                status: "navigation failed: "@ + e@,
                ..old(self)@
            }),
    {
        match result {
            Ok(()) => {
                self.status = text("navigation ready");
                self.queue_palette(None);
            },
            Err(error) => {
                self.status = message("navigation failed: ", error.as_str());
            },
        }
    }

    /// Notes that the worker is gone.
    pub fn worker_stopped(&mut self)
        requires
            old(self).wf(),
        ensures
            final(self).wf(),
            final(self)@ == (NavigationView { status: "navigation worker stopped"@, ..old(self)@ }),
    {
        self.status = text("navigation worker stopped");
    }

    /// Takes in the answer to palette request `id`, asked at `cursor`. Only the answer to the
    /// request in flight that is also the newest palette request is shown; any other counts as
    /// stale, and frees the worker slot if it was the one in flight.
    pub fn receive_palette(
        &mut self,
        id: u64,
        cursor: Option<PC>,
        result: Result<NavigationPage<PC, PR>, String>,
    )
        requires
            old(self).wf(),
        ensures
            final(self).wf(),
            (old(self)@.in_flight != Some(id) || id != old(self)@.latest_palette_id) ==> final(self)@
                == dropped_stale(old(self)@, id),
            (old(self)@.in_flight == Some(id) && id == old(self)@.latest_palette_id) ==> match result {
                Ok(page) => final(self)@ == (NavigationView {
                    in_flight: None,
                    palette_cursor: cursor,
                    palette_records: page.records@,
                    palette_next: page.next_cursor,
                    ..old(self)@
                }),
                Err(e) => final(self)@ == (NavigationView {
                    in_flight: None,
                    status: "asset query failed: "@ + e@,
                    ..old(self)@
                }),
            },
    {
        if self.in_flight != Some(id) || id != self.latest_palette_id {
            self.stale_results = self.stale_results.saturating_add(1);
            if self.in_flight == Some(id) {
                self.in_flight = None;
            }
            return;
        }
        self.in_flight = None;
        match result {
            Ok(page) => {
                self.palette_cursor = cursor;
                self.palette_records = page.records;
                self.palette_next = page.next_cursor;
            },
            Err(error) => {
                self.status = message("asset query failed: ", error.as_str());
            },
        }
    }

    /// Takes in the answer to outliner request `id`, asked at `cursor`, with the same rule as
    /// the palette.
    pub fn receive_outliner(
        &mut self,
        id: u64,
        cursor: Option<OC>,
        result: Result<NavigationPage<OC, OR>, String>,
    )
        requires
            old(self).wf(),
        ensures
            final(self).wf(),
            (old(self)@.in_flight != Some(id) || id != old(self)@.latest_outliner_id) ==> final(self)@
                == dropped_stale(old(self)@, id),
            (old(self)@.in_flight == Some(id) && id == old(self)@.latest_outliner_id) ==> match result {
                Ok(page) => final(self)@ == (NavigationView {
                    in_flight: None,
                    outliner_cursor: cursor,
                    outliner_records: page.records@,
                    outliner_next: page.next_cursor,
                    ..old(self)@
                }),
                Err(e) => final(self)@ == (NavigationView {
                    in_flight: None,
                    status: "outliner query failed: "@ + e@,
                    ..old(self)@
                }),
            },
    {
        if self.in_flight != Some(id) || id != self.latest_outliner_id {
            self.stale_results = self.stale_results.saturating_add(1);
            if self.in_flight == Some(id) {
                self.in_flight = None;
            }
            return;
        }
        self.in_flight = None;
        match result {
            Ok(page) => {
                self.outliner_cursor = cursor;
                self.outliner_records = page.records;
                self.outliner_next = page.next_cursor;
            },
            Err(error) => {
                self.status = message("outliner query failed: ", error.as_str());
            },
        }
    }

    /// Follows the world space the viewpoint is in: a new space empties the outliner and queues
    /// its first page.
    pub fn follow_world_space(&mut self, space: Option<WorldSpaceId>)
        requires
            old(self).wf(),
        ensures
            final(self).wf(),
            space == old(self)@.outliner_space ==> final(self)@ == old(self)@,
            space != old(self)@.outliner_space ==> final(self)@ == queued_outliner(
                NavigationView {
                    outliner_space: space,
                    outliner_history: Seq::empty(),
                    outliner_records: Seq::empty(),
                    outliner_next: None,
                    ..old(self)@
                },
                None,
            ),
    {
        if self.outliner_space == space {
            return;
        }
        self.outliner_space = space;
        self.outliner_history.clear();
        self.outliner_records.clear();
        self.outliner_next = None;
        self.queue_outliner(None);
    }

    /// Takes the request to send next, the palette's before the outliner's, while none is in
    /// flight.
    pub fn take_dispatch(&mut self) -> (r: Option<NavigationRequest<PC, OC>>)
        requires
            old(self).wf(),
        ensures
            final(self).wf(),
            old(self)@.in_flight is Some ==> r is None && final(self)@ == old(self)@,
            old(self)@.in_flight is None && old(self)@.pending_palette is Some ==> r is Some
                && r->0@ == old(self)@.pending_palette->0
                && final(self)@ == (NavigationView { pending_palette: None, ..old(self)@ }),
            old(self)@.in_flight is None && old(self)@.pending_palette is None ==> opt_request_view(r)
                == old(self)@.pending_outliner && final(self)@ == (NavigationView {
                pending_outliner: None,
                ..old(self)@
            }),
    {
        if self.in_flight.is_some() {
            return None;
        }
        match self.pending_palette.take() {
            Some(request) => Some(request),
            None => self.pending_outliner.take(),
        }
    }

    /// Records what became of sending a taken request: sent, it is in flight; refused by a full
    /// queue, it waits in its slot again; refused by a stopped worker, the status says so.
    pub fn dispatched(&mut self, request: NavigationRequest<PC, OC>, outcome: SendOutcome)
        requires
            old(self).wf(),
        ensures
            final(self).wf(),
            outcome is Sent ==> final(self)@ == (NavigationView {
                in_flight: Some(request.id),
                ..old(self)@
            }),
            outcome is Full && request.kind is Palette ==> final(self)@ == (NavigationView {
                pending_palette: Some(request@),
                ..old(self)@
            }),
            outcome is Full && request.kind is Outliner ==> final(self)@ == (NavigationView {
                pending_outliner: Some(request@),
                ..old(self)@
            }),
            outcome is Disconnected ==> final(self)@ == (NavigationView {
                status: "navigation worker stopped"@,
                ..old(self)@
            }),
    {
        match outcome {
            SendOutcome::Sent => {
                self.in_flight = Some(request.id);
            },
            SendOutcome::Full => {
                match request.kind {
                    NavigationRequestKind::Palette { .. } => {
                        self.pending_palette = Some(request);
                    },
                    NavigationRequestKind::Outliner { .. } => {
                        self.pending_outliner = Some(request);
                    },
                }
            },
            SendOutcome::Disconnected => {
                self.status = text("navigation worker stopped");
            },
        }
    }
}

} // verus!
