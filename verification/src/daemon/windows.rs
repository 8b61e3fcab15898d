//! The widget windows the daemon has open, and what the `open`, `close`
//! and `toggle` commands do to them.

use vstd::prelude::*;
use crate::ipc::{Response, ResponseView};
use crate::text::{owned, push_str, str_eq};

verus! {

/// What the window system has to do after a command.
#[derive(Debug, Clone, PartialEq, Eq)]
pub enum WindowAction {
    NoAction,
    /// Create a surface with this id for this widget.
    Open(u64, String),
    /// Destroy the surface with this id.
    Remove(u64),
}

pub enum WindowActionView {
    NoAction,
    Open(u64, Seq<char>),
    Remove(u64),
}

impl View for WindowAction {
    type V = WindowActionView;

    open spec fn view(&self) -> WindowActionView {
        match self {
            WindowAction::NoAction => WindowActionView::NoAction,
            WindowAction::Open(id, w) => WindowActionView::Open(*id, w@),
            WindowAction::Remove(id) => WindowActionView::Remove(*id),
        }
    }
}

/// Open windows: each a surface id and the widget it shows, in the order
/// they were opened.
pub struct OpenWindows {
    entries: Vec<(u64, String)>,
}

/// No two entries share an id or a widget.
pub open spec fn distinct_entries(s: Seq<(u64, Seq<char>)>) -> bool {
    forall|i: int, j: int| 0 <= i < j < s.len() ==> (#[trigger] s[i]).0 != (#[trigger] s[j]).0 && s[i].1 != s[j].1
}

/// The position of the window showing widget `name`.
pub open spec fn find_name(s: Seq<(u64, Seq<char>)>, name: Seq<char>) -> Option<int>
    decreases s.len(),
{
    if s.len() == 0 {
        None
    } else if s.last().1 == name {
        Some(s.len() - 1)
    } else {
        find_name(s.drop_last(), name)
    }
}

/// The position of the window with surface id `id`.
pub open spec fn find_id(s: Seq<(u64, Seq<char>)>, id: u64) -> Option<int>
    decreases s.len(),
{
    if s.len() == 0 {
        None
    } else if s.last().0 == id {
        Some(s.len() - 1)
    } else {
        find_id(s.drop_last(), id)
    }
}

/// Whether some window uses the surface id `id`.
pub open spec fn id_used(s: Seq<(u64, Seq<char>)>, id: u64) -> bool {
    exists|k: int| 0 <= k < s.len() && (#[trigger] s[k]).0 == id
}

pub open spec fn no_such_widget(w: Seq<char>) -> Seq<char> {
    "no such widget \""@ + w + "\""@
}

pub open spec fn not_open(w: Seq<char>) -> Seq<char> {
    "window \""@ + w + "\" is not open"@
}

/// `open <w>`: nothing to do when `w` is open already; an error when no
/// widget `w` is configured; else a new window with id `fresh`.
pub open spec fn spec_open(s: Seq<(u64, Seq<char>)>, w: Seq<char>, exists_: bool, fresh: u64)
    -> (Seq<(u64, Seq<char>)>, ResponseView, WindowActionView)
{
    if find_name(s, w) is Some {
        (s, ResponseView::Okay, WindowActionView::NoAction)
    } else if !exists_ {
        (s, ResponseView::Error(no_such_widget(w)), WindowActionView::NoAction)
    } else {
        (s.push((fresh, w)), ResponseView::Okay, WindowActionView::Open(fresh, w))
    }
}

/// `close <w>`: the window goes; an error when it is not open.
pub open spec fn spec_close(s: Seq<(u64, Seq<char>)>, w: Seq<char>)
    -> (Seq<(u64, Seq<char>)>, ResponseView, WindowActionView)
{
    match find_name(s, w) {
        Some(k) => (s.remove(k), ResponseView::Okay, WindowActionView::Remove(s[k].0)),
        None => (s, ResponseView::Error(not_open(w)), WindowActionView::NoAction),
    }
}

/// `toggle <w>`: close it when open, else open it.
pub open spec fn spec_toggle(s: Seq<(u64, Seq<char>)>, w: Seq<char>, exists_: bool, fresh: u64)
    -> (Seq<(u64, Seq<char>)>, ResponseView, WindowActionView)
{
    if find_name(s, w) is Some {
        spec_close(s, w)
    } else {
        spec_open(s, w, exists_, fresh)
    }
}

proof fn lemma_find_name(s: Seq<(u64, Seq<char>)>, name: Seq<char>)
    ensures
        match find_name(s, name) {
            Some(k) => 0 <= k < s.len() && s[k].1 == name,
            None => forall|k: int| 0 <= k < s.len() ==> (#[trigger] s[k]).1 != name,
        },
    decreases s.len(),
{
    if s.len() > 0 && s.last().1 != name {
        lemma_find_name(s.drop_last(), name);
        assert forall|k: int| 0 <= k < s.len() - 1 implies #[trigger] s[k] == s.drop_last()[k] by {}
    }
}

proof fn lemma_find_id(s: Seq<(u64, Seq<char>)>, id: u64)
    ensures
        match find_id(s, id) {
            Some(k) => 0 <= k < s.len() && s[k].0 == id,
            None => !id_used(s, id),
        },
    decreases s.len(),
{
    if s.len() > 0 && s.last().0 != id {
        lemma_find_id(s.drop_last(), id);
        assert forall|k: int| 0 <= k < s.len() - 1 implies #[trigger] s[k] == s.drop_last()[k] by {}
    }
}

/// With distinct names, the entry found is the only one with that name.
proof fn lemma_find_name_unique(s: Seq<(u64, Seq<char>)>, k: int)
    requires
        distinct_entries(s),
        0 <= k < s.len(),
    ensures
        find_name(s, s[k].1) == Some(k),
    decreases s.len(),
{
    if k < s.len() - 1 {
        assert(s.last() == s[s.len() - 1]);
        assert(s[k].1 != s[s.len() - 1].1);
        let t = s.drop_last();
        assert forall|i: int, j: int| 0 <= i < j < t.len() implies (#[trigger] t[i]).0 != (#[trigger] t[j]).0 && t[i].1 != t[j].1 by {
            assert(t[i] == s[i] && t[j] == s[j]);
        }
        assert(t[k] == s[k]);
        lemma_find_name_unique(t, k);
    }
}


/// Closing a window that was just opened leaves the open windows as they
/// were before, and destroys exactly the surface that was created.
pub proof fn law_open_then_close(s: Seq<(u64, Seq<char>)>, w: Seq<char>, fresh: u64)
    requires
        distinct_entries(s),
        find_name(s, w) is None,
        !id_used(s, fresh),
    ensures
        spec_open(s, w, true, fresh).2 == WindowActionView::Open(fresh, w),
        spec_close(spec_open(s, w, true, fresh).0, w).0 == s,
        spec_close(spec_open(s, w, true, fresh).0, w).2 == WindowActionView::Remove(fresh),
{
    let t = s.push((fresh, w));
    assert(t.last() == (fresh, w));
    assert(find_name(t, w) == Some(s.len() as int));
    assert(t.remove(s.len() as int) =~= s);
}

/// Opening a widget whose window is open already changes nothing, so
/// opening twice is opening once.
pub proof fn law_open_idempotent(s: Seq<(u64, Seq<char>)>, w: Seq<char>, exists_: bool, f: u64, g: u64)
    requires
        distinct_entries(s),
    ensures
        find_name(s, w) is Some ==> spec_open(s, w, exists_, f) == (s, ResponseView::Okay, WindowActionView::NoAction),
        spec_open(spec_open(s, w, exists_, f).0, w, exists_, g).0 == spec_open(s, w, exists_, f).0,
{
    if find_name(s, w) is None && exists_ {
        let t = s.push((f, w));
        assert(t.last() == (f, w));
        assert(find_name(t, w) == Some(s.len() as int));
    }
}

/// Toggling a closed window twice leaves the open windows as they were.
pub proof fn law_toggle_twice(s: Seq<(u64, Seq<char>)>, w: Seq<char>, exists_: bool, f: u64, g: u64)
    requires
        distinct_entries(s),
        find_name(s, w) is None,
        !id_used(s, f),
    ensures
        spec_toggle(spec_toggle(s, w, exists_, f).0, w, exists_, g).0 == s,
{
    if exists_ {
        law_open_then_close(s, w, f);
        let t = s.push((f, w));
        assert(t.last() == (f, w));
        assert(find_name(t, w) == Some(s.len() as int));
    }
}

/// Closing a window that is not open is refused and changes nothing.
pub proof fn law_close_unopened(s: Seq<(u64, Seq<char>)>, w: Seq<char>)
    requires
        find_name(s, w) is None,
    ensures
        spec_close(s, w) == (s, ResponseView::Error(not_open(w)), WindowActionView::NoAction),
{
}

/// After a successful close no window shows the widget any more.
pub proof fn law_close_removes(s: Seq<(u64, Seq<char>)>, w: Seq<char>)
    requires
        distinct_entries(s),
        find_name(s, w) is Some,
    ensures
        find_name(spec_close(s, w).0, w) is None,
{
    lemma_find_name(s, w);
    let k = find_name(s, w)->0;
    let t = s.remove(k);
    assert forall|i: int| 0 <= i < t.len() implies (#[trigger] t[i]).1 != w by {
        let si = if i < k { i } else { i + 1 };
        assert(t[i] == s[si]);
        assert(si != k);
        if si < k {
            assert(s[si].1 != s[k].1);
        } else {
            assert(s[k].1 != s[si].1);
        }
    }
    lemma_find_name(t, w);
}

impl View for OpenWindows {
    type V = Seq<(u64, Seq<char>)>;

    closed spec fn view(&self) -> Seq<(u64, Seq<char>)> {
        self.entries@.map_values(|e: (u64, String)| (e.0, e.1@))
    }
}

impl OpenWindows {
    /// No window open.
    pub fn new() -> (r: OpenWindows)
        ensures
            r@ == Seq::<(u64, Seq<char>)>::empty(),
    {
        let r = OpenWindows { entries: Vec::new() };
        proof {
            assert(r@ =~= Seq::<(u64, Seq<char>)>::empty());
        }
        r
    }

    /// The number of open windows.
    pub fn len(&self) -> (r: usize)
        ensures
            r == self@.len(),
    {
        self.entries.len()
    }

    /// The position of the window showing `name`.
    fn position_of(&self, name: &str) -> (r: Option<usize>)
        ensures
            match r {
                Some(k) => find_name(self@, name@) == Some(k as int),
                None => find_name(self@, name@) is None,
            },
    {
        let ghost s = self@;
        let mut i = self.entries.len();
        proof {
            assert(s.subrange(0, i as int) =~= s);
        }
        while i > 0
            invariant
                s == self@,
                i <= self@.len(),
                find_name(s, name@) == find_name(s.subrange(0, i as int), name@),
            decreases i,
        {
            proof {
                assert(s.subrange(0, i as int).last() == s[i - 1]);
                assert(s.subrange(0, i as int).drop_last() =~= s.subrange(0, i - 1));
                assert(s[i - 1].1 == self.entries@[i - 1].1@);
            }
            if str_eq(self.entries[i - 1].1.as_str(), name) {
                return Some(i - 1);
            }
            i = i - 1;
        }
        proof {
            assert(s.subrange(0, 0) =~= Seq::<(u64, Seq<char>)>::empty());
        }
        None
    }

    /// Whether a window shows widget `name`.
    pub fn is_open(&self, name: &str) -> (r: bool)
        ensures
            r == find_name(self@, name@) is Some,
    {
        self.position_of(name).is_some()
    }

    /// The widget that the window `id` shows.
    pub fn name_of(&self, id: u64) -> (r: Option<String>)
        ensures
            match find_id(self@, id) {
                Some(k) => r matches Some(n) && n@ == self@[k].1,
                None => r is None,
            },
    {
        let ghost s = self@;
        let mut i = self.entries.len();
        proof {
            assert(s.subrange(0, i as int) =~= s);
        }
        while i > 0
            invariant
                s == self@,
                i <= self@.len(),
                find_id(s, id) == find_id(s.subrange(0, i as int), id),
            decreases i,
        {
            proof {
                assert(s.subrange(0, i as int).last() == s[i - 1]);
                assert(s.subrange(0, i as int).drop_last() =~= s.subrange(0, i - 1));
            }
            if self.entries[i - 1].0 == id {
                return Some(self.entries[i - 1].1.clone());
            }
            i = i - 1;
        }
        proof {
            assert(s.subrange(0, 0) =~= Seq::<(u64, Seq<char>)>::empty());
        }
        None
    }

    /// Records a window created for widget `name` with surface id `id`.
    pub fn record(&mut self, id: u64, name: String)
        requires
            distinct_entries(old(self)@),
            !id_used(old(self)@, id),
            find_name(old(self)@, name@) is None,
        ensures
            final(self)@ == old(self)@.push((id, name@)),
            distinct_entries(final(self)@),
    {
        let ghost s = self@;
        proof {
            lemma_find_name(s, name@);
        }
        self.entries.push((id, name));
        proof {
            assert(self@ =~= s.push((id, name@)));
            let t = self@;
            assert forall|i: int, j: int| 0 <= i < j < t.len() implies (#[trigger] t[i]).0 != (#[trigger] t[j]).0 && t[i].1 != t[j].1 by {
                if j == t.len() - 1 {
                    assert(t[i] == s[i]);
                } else {
                    assert(t[i] == s[i] && t[j] == s[j]);
                }
            }
        }
    }

    /// Removes the window at position `k`.
    fn remove_at(&mut self, k: usize) -> (r: u64)
        requires
            k < old(self)@.len(),
            distinct_entries(old(self)@),
        ensures
            final(self)@ == old(self)@.remove(k as int),
            r == old(self)@[k as int].0,
            distinct_entries(final(self)@),
    {
        let ghost s = self@;
        let (id, _name) = self.entries.remove(k);
        proof {
            assert(self@ =~= s.remove(k as int));
            let t = self@;
            assert forall|i: int, j: int| 0 <= i < j < t.len() implies (#[trigger] t[i]).0 != (#[trigger] t[j]).0 && t[i].1 != t[j].1 by {
                let si = if i < k { i } else { i + 1 };
                let sj = if j < k { j } else { j + 1 };
                assert(t[i] == s[si] && t[j] == s[sj]);
            }
        }
        id
    }

    /// Forgets the window `id` after its surface went away.
    pub fn forget(&mut self, id: u64)
        requires
            distinct_entries(old(self)@),
        ensures
            distinct_entries(final(self)@),
            match find_id(old(self)@, id) {
                Some(k) => final(self)@ == old(self)@.remove(k),
                None => final(self)@ == old(self)@,
            },
    {
        let ghost s = self@;
        let mut i = self.entries.len();
        proof {
            assert(s.subrange(0, i as int) =~= s);
        }
        while i > 0
            invariant
                s == self@,
                s == old(self)@,
                i <= self@.len(),
                distinct_entries(s),
                find_id(s, id) == find_id(s.subrange(0, i as int), id),
            decreases i,
        {
            proof {
                assert(s.subrange(0, i as int).last() == s[i - 1]);
                assert(s.subrange(0, i as int).drop_last() =~= s.subrange(0, i - 1));
            }
            if self.entries[i - 1].0 == id {
                proof {
                    assert(find_id(s, id) == Some(i - 1));
                }
                self.remove_at(i - 1);
                return;
            }
            i = i - 1;
        }
        proof {
            assert(s.subrange(0, 0) =~= Seq::<(u64, Seq<char>)>::empty());
        }
    }

    /// Empties the set, handing out every window in opening order.
    pub fn take_all(&mut self) -> (r: Vec<(u64, String)>)
        ensures
            final(self)@ == Seq::<(u64, Seq<char>)>::empty(),
            r@.map_values(|e: (u64, String)| (e.0, e.1@)) == old(self)@,
    {
        let mut taken: Vec<(u64, String)> = Vec::new();
        std::mem::swap(&mut taken, &mut self.entries);
        proof {
            assert(self@ =~= Seq::<(u64, Seq<char>)>::empty());
        }
        taken
    }

    /// `open <window>`; `fresh` is the id a new surface would get.
    pub fn open(&mut self, window: &str, widget_exists: bool, fresh: u64) -> (r: (Response, WindowAction))
        requires
            distinct_entries(old(self)@),
            !id_used(old(self)@, fresh),
        ensures
            distinct_entries(final(self)@),
            (final(self)@, r.0@, r.1@) == spec_open(old(self)@, window@, widget_exists, fresh),
    {
        if self.is_open(window) {
            return (Response::Okay, WindowAction::NoAction);
        }
        if !widget_exists {
            let mut msg = owned("no such widget \"");
            push_str(&mut msg, window);
            push_str(&mut msg, "\"");
            return (Response::Error(msg), WindowAction::NoAction);
        }
        self.record(fresh, owned(window));
        (Response::Okay, WindowAction::Open(fresh, owned(window)))
    }

    /// `close <window>`.
    pub fn close(&mut self, window: &str) -> (r: (Response, WindowAction))
        requires
            distinct_entries(old(self)@),
        ensures
            distinct_entries(final(self)@),
            (final(self)@, r.0@, r.1@) == spec_close(old(self)@, window@),
    {
        proof {
            lemma_find_name(self@, window@);
        }
        match self.position_of(window) {
            Some(k) => {
                let ghost s = self@;
                let id = self.remove_at(k);
                proof {
                    assert(find_name(s, window@) == Some(k as int));
                    assert(spec_close(s, window@).0 == s.remove(k as int));
                    assert(spec_close(s, window@).2 == WindowActionView::Remove(id));
                }
                (Response::Okay, WindowAction::Remove(id))
            },
            None => {
                let mut msg = owned("window \"");
                push_str(&mut msg, window);
                push_str(&mut msg, "\" is not open");
                (Response::Error(msg), WindowAction::NoAction)
            },
        }
    }

    /// `toggle <window>`.
    pub fn toggle(&mut self, window: &str, widget_exists: bool, fresh: u64) -> (r: (Response, WindowAction))
        requires
            distinct_entries(old(self)@),
            !id_used(old(self)@, fresh),
        ensures
            distinct_entries(final(self)@),
            (final(self)@, r.0@, r.1@) == spec_toggle(old(self)@, window@, widget_exists, fresh),
    {
        if self.is_open(window) {
            self.close(window)
        } else {
            self.open(window, widget_exists, fresh)
        }
    }
}


/// Opening a widget that is not configured is refused and changes nothing;
/// opening a configured one that is closed opens a new window with the
/// fresh id, after the others.
pub proof fn law_open_rules(s: Seq<(u64, Seq<char>)>, w: Seq<char>, fresh: u64)
    requires
        find_name(s, w) is None,
    ensures
        spec_open(s, w, false, fresh) == (s, ResponseView::Error(no_such_widget(w)), WindowActionView::NoAction),
        spec_open(s, w, true, fresh) == (s.push((fresh, w)), ResponseView::Okay, WindowActionView::Open(fresh, w)),
{
}

/// Toggling opens a closed window and closes an open one.
pub proof fn law_toggle_open_or_close(s: Seq<(u64, Seq<char>)>, w: Seq<char>, exists_: bool, fresh: u64)
    ensures
        find_name(s, w) is None ==> spec_toggle(s, w, exists_, fresh) == spec_open(s, w, exists_, fresh),
        find_name(s, w) is Some ==> spec_toggle(s, w, exists_, fresh) == spec_close(s, w)
            && spec_toggle(s, w, exists_, fresh).1 == ResponseView::Okay
            && spec_toggle(s, w, exists_, fresh).2 == WindowActionView::Remove(s[find_name(s, w)->0].0),
{
}

} // verus!
