//! The notifications the daemon holds: at most `max` of them have a window
//! on screen, the others wait, oldest first, for a window to free up.

use vstd::prelude::*;

verus! {

/// A notification held by the daemon: its id, what the caller keeps with
/// it, and the window showing it, if any.
pub struct NotifEntry<T> {
    pub id: u32,
    pub payload: T,
    pub window: Option<u64>,
}

/// The notifications in the order they arrived.
pub struct NotifQueue<T> {
    entries: Vec<NotifEntry<T>>,
}

/// Each notification as its id and its window.
pub type Slots = Seq<(u32, Option<u64>)>;

/// How many notifications have a window.
pub open spec fn shown(s: Slots) -> nat
    decreases s.len(),
{
    if s.len() == 0 {
        0
    } else {
        shown(s.drop_last()) + if s.last().1 is Some { 1nat } else { 0nat }
    }
}

/// The position of notification `id`.
pub open spec fn pos_of(s: Slots, id: u32) -> Option<int>
    decreases s.len(),
{
    if s.len() == 0 {
        None
    } else if s[0].0 == id {
        Some(0)
    } else {
        match pos_of(s.drop_first(), id) {
            Some(k) => Some(k + 1),
            None => None,
        }
    }
}

/// The position of the oldest notification without a window.
pub open spec fn first_queued(s: Slots) -> Option<int>
    decreases s.len(),
{
    if s.len() == 0 {
        None
    } else if s[0].1 is None {
        Some(0)
    } else {
        match first_queued(s.drop_first()) {
            Some(k) => Some(k + 1),
            None => None,
        }
    }
}

/// Whether some notification uses window `w`.
pub open spec fn window_used(s: Slots, w: u64) -> bool {
    exists|k: int| 0 <= k < s.len() && (#[trigger] s[k]).1 == Some(w)
}

/// No two notifications share an id or a window.
pub open spec fn slots_wf(s: Slots) -> bool {
    forall|i: int, j: int| 0 <= i < j < s.len() ==> (#[trigger] s[i]).0 != (#[trigger] s[j]).0
        && (s[i].1 is Some ==> s[i].1 != s[j].1)
}

#[derive(Debug, Clone, Copy, PartialEq, Eq, Structural)]
pub enum NotifyOutcome {
    /// A notification with that id was there: its content was replaced.
    Updated,
    /// All windows are taken: the notification waits.
    Queued,
    /// The notification got a new window.
    Opened(u64),
}

/// A new notification: replaces the one with the same id, else joins the
/// end, with the window `fresh` when fewer than `max` are shown.
pub open spec fn spec_notify(s: Slots, id: u32, max: nat, fresh: u64) -> (Slots, NotifyOutcome) {
    match pos_of(s, id) {
        Some(_) => (s, NotifyOutcome::Updated),
        None => if shown(s) >= max {
            (s.push((id, None)), NotifyOutcome::Queued)
        } else {
            (s.push((id, Some(fresh))), NotifyOutcome::Opened(fresh))
        },
    }
}

/// Gives the window `fresh` to the oldest waiting notification, when fewer
/// than `max` are shown.
pub open spec fn spec_promote(s: Slots, max: nat, fresh: u64) -> (Slots, Option<(u32, u64)>) {
    if shown(s) >= max {
        (s, None)
    } else {
        match first_queued(s) {
            None => (s, None),
            Some(j) => (s.update(j, (s[j].0, Some(fresh))), Some((s[j].0, fresh))),
        }
    }
}

/// Closing notification `id`: it goes, its window (if any) goes, and the
/// oldest waiting one may take a window. `None` when there is no such
/// notification.
pub open spec fn spec_close(s: Slots, id: u32, max: nat, fresh: u64)
    -> Option<(Slots, Option<u64>, Option<(u32, u64)>)>
{
    match pos_of(s, id) {
        None => None,
        Some(k) => {
            let (t, p) = spec_promote(s.remove(k), max, fresh);
            Some((t, s[k].1, p))
        },
    }
}

/// The windows from the newest notification to the oldest: the order in
/// which they are stacked on screen.
pub open spec fn stack_order(s: Slots) -> Seq<u64>
    decreases s.len(),
{
    if s.len() == 0 {
        seq![]
    } else {
        let rest = stack_order(s.drop_last());
        match s.last().1 {
            Some(w) => seq![w] + rest,
            None => rest,
        }
    }
}

proof fn lemma_pos_of(s: Slots, id: u32)
    ensures
        match pos_of(s, id) {
            Some(k) => 0 <= k < s.len() && s[k].0 == id && forall|i: int| 0 <= i < k ==> (#[trigger] s[i]).0 != id,
            None => forall|i: int| 0 <= i < s.len() ==> (#[trigger] s[i]).0 != id,
        },
    decreases s.len(),
{
    if s.len() > 0 && s[0].0 != id {
        lemma_pos_of(s.drop_first(), id);
        assert forall|i: int| 1 <= i < s.len() implies #[trigger] s[i] == s.drop_first()[i - 1] by {}
    }
}

proof fn lemma_first_queued(s: Slots)
    ensures
        match first_queued(s) {
            Some(k) => 0 <= k < s.len() && s[k].1 is None && forall|i: int| 0 <= i < k ==> (#[trigger] s[i]).1 is Some,
            None => forall|i: int| 0 <= i < s.len() ==> (#[trigger] s[i]).1 is Some,
        },
    decreases s.len(),
{
    if s.len() > 0 && s[0].1 is Some {
        lemma_first_queued(s.drop_first());
        assert forall|i: int| 1 <= i < s.len() implies #[trigger] s[i] == s.drop_first()[i - 1] by {}
    }
}

proof fn lemma_shown_push(s: Slots, e: (u32, Option<u64>))
    ensures
        shown(s.push(e)) == shown(s) + if e.1 is Some { 1nat } else { 0nat },
{
    assert(s.push(e).drop_last() =~= s);
}

proof fn lemma_shown_remove(s: Slots, k: int)
    requires
        0 <= k < s.len(),
    ensures
        shown(s.remove(k)) + (if s[k].1 is Some { 1nat } else { 0nat }) == shown(s),
    decreases s.len(),
{
    if k < s.len() - 1 {
        let t = s.drop_last();
        lemma_shown_remove(t, k);
        assert(s.remove(k).drop_last() =~= t.remove(k));
        assert(s.remove(k).last() == s.last());
        assert(t[k] == s[k]);
    } else {
        assert(s.remove(k) =~= s.drop_last());
    }
}

proof fn lemma_shown_update(s: Slots, j: int, e: (u32, Option<u64>))
    requires
        0 <= j < s.len(),
    ensures
        shown(s.update(j, e)) + (if s[j].1 is Some { 1nat } else { 0nat })
            == shown(s) + (if e.1 is Some { 1nat } else { 0nat }),
    decreases s.len(),
{
    if j < s.len() - 1 {
        let t = s.drop_last();
        lemma_shown_update(t, j, e);
        assert(s.update(j, e).drop_last() =~= t.update(j, e));
        assert(s.update(j, e).last() == s.last());
        assert(t[j] == s[j]);
    } else {
        assert(s.update(j, e).drop_last() =~= s.drop_last());
    }
}

/// A notification is never shown beyond the limit: when at most `max` are
/// shown, a new notification or a close keeps it so.
pub proof fn law_shown_within_max(s: Slots, id: u32, max: nat, fresh: u64, closed: u32)
    requires
        shown(s) <= max,
    ensures
        shown(spec_notify(s, id, max, fresh).0) <= max,
        spec_close(s, closed, max, fresh) matches Some((t, _, _)) ==> shown(t) <= max,
{
    lemma_shown_push(s, (id, None));
    lemma_shown_push(s, (id, Some(fresh)));
    match pos_of(s, closed) {
        Some(k) => {
            lemma_pos_of(s, closed);
            let t = s.remove(k);
            lemma_shown_remove(s, k);
            if shown(t) < max {
                match first_queued(t) {
                    Some(j) => {
                        lemma_first_queued(t);
                        lemma_shown_update(t, j, (t[j].0, Some(fresh)));
                    },
                    None => {},
                }
            }
        },
        None => {},
    }
}

/// When a shown notification closes, the oldest waiting one takes a window.
pub proof fn law_close_promotes_oldest(s: Slots, id: u32, max: nat, fresh: u64)
    requires
        shown(s) <= max,
        pos_of(s, id) is Some,
        s[pos_of(s, id)->0].1 is Some,
        first_queued(s.remove(pos_of(s, id)->0)) is Some,
    ensures
        spec_close(s, id, max, fresh) matches Some((_, _, Some((pid, w))))
            && w == fresh
            && pid == s.remove(pos_of(s, id)->0)[first_queued(s.remove(pos_of(s, id)->0))->0].0,
{
    lemma_pos_of(s, id);
    let k = pos_of(s, id)->0;
    lemma_shown_remove(s, k);
}

/// A notification that replaces one with the same id changes no window.
pub proof fn law_replace_keeps_windows(s: Slots, id: u32, max: nat, fresh: u64)
    requires
        pos_of(s, id) is Some,
    ensures
        spec_notify(s, id, max, fresh) == (s, NotifyOutcome::Updated),
{
}

impl<T> NotifQueue<T> {
    pub closed spec fn slots(&self) -> Slots {
        self.entries@.map_values(|e: NotifEntry<T>| (e.id, e.window))
    }

    pub closed spec fn payloads(&self) -> Seq<T> {
        self.entries@.map_values(|e: NotifEntry<T>| e.payload)
    }

    pub fn new() -> (r: NotifQueue<T>)
        ensures
            r.slots() == Seq::<(u32, Option<u64>)>::empty(),
            r.payloads() == Seq::<T>::empty(),
    {
        let r = NotifQueue { entries: Vec::new() };
        proof {
            assert(r.slots() =~= Seq::<(u32, Option<u64>)>::empty());
            assert(r.payloads() =~= Seq::<T>::empty());
        }
        r
    }

    /// The number of notifications held.
    pub fn len(&self) -> (r: usize)
        ensures
            r == self.slots().len(),
            self.slots().len() == self.payloads().len(),
    {
        self.entries.len()
    }

    fn position(&self, id: u32) -> (r: Option<usize>)
        ensures
            match r {
                Some(k) => pos_of(self.slots(), id) == Some(k as int),
                None => pos_of(self.slots(), id) is None,
            },
    {
        let ghost s = self.slots();
        let mut i: usize = 0;
        while i < self.entries.len()
            invariant
                s == self.slots(),
                i <= s.len(),
                forall|k: int| 0 <= k < i ==> (#[trigger] s[k]).0 != id,
            decreases s.len() - i,
        {
            if self.entries[i].id == id {
                proof {
                    lemma_pos_of(s, id);
                    assert(s[i as int].0 == id);
                    match pos_of(s, id) {
                        Some(k) => {
                            if k < i {
                                assert(s[k].0 != id);
                            }
                            if k > i {
                                assert(s[i as int].0 != id);
                            }
                        },
                        None => {},
                    }
                }
                return Some(i);
            }
            i = i + 1;
        }
        proof {
            lemma_pos_of(s, id);
        }
        None
    }

    /// How many notifications have a window.
    pub fn shown_count(&self) -> (r: usize)
        ensures
            r == shown(self.slots()),
    {
        let ghost s = self.slots();
        let mut n: usize = 0;
        let mut i: usize = 0;
        while i < self.entries.len()
            invariant
                s == self.slots(),
                i <= s.len(),
                n == shown(s.take(i as int)),
                n <= i,
            decreases s.len() - i,
        {
            proof {
                assert(s.take(i + 1).drop_last() =~= s.take(i as int));
            }
            if self.entries[i].window.is_some() {
                n = n + 1;
            }
            i = i + 1;
        }
        proof {
            assert(s.take(i as int) =~= s);
        }
        n
    }

    /// The content kept with notification `id`.
    pub fn payload_of(&self, id: u32) -> (r: Option<&T>)
        ensures
            match pos_of(self.slots(), id) {
                Some(k) => r matches Some(p) && *p == self.payloads()[k],
                None => r is None,
            },
    {
        match self.position(id) {
            Some(k) => {
                proof {
                    lemma_pos_of(self.slots(), id);
                }
                Some(&self.entries[k].payload)
            },
            None => None,
        }
    }

    /// The notification that window `w` shows.
    pub fn owner_of(&self, w: u64) -> (r: Option<u32>)
        ensures
            match r {
                Some(id) => exists|k: int| 0 <= k < self.slots().len() && #[trigger] self.slots()[k] == (id, Some(w)),
                None => !window_used(self.slots(), w),
            },
    {
        let ghost s = self.slots();
        let mut i: usize = 0;
        while i < self.entries.len()
            invariant
                s == self.slots(),
                i <= s.len(),
                forall|k: int| 0 <= k < i ==> (#[trigger] s[k]).1 != Some(w),
            decreases s.len() - i,
        {
            match self.entries[i].window {
                Some(x) => if x == w {
                    proof {
                        assert(s[i as int] == (self.entries@[i as int].id, Some(w)));
                    }
                    return Some(self.entries[i].id);
                },
                None => {},
            }
            i = i + 1;
        }
        None
    }

    /// The windows from the newest notification to the oldest.
    pub fn stack(&self) -> (r: Vec<u64>)
        ensures
            r@ == stack_order(self.slots()),
    {
        let ghost s = self.slots();
        let mut out: Vec<u64> = Vec::new();
        let mut i: usize = self.entries.len();
        proof {
            assert(s.take(i as int) =~= s);
            assert(out@ + stack_order(s) =~= stack_order(s));
        }
        while i > 0
            invariant
                s == self.slots(),
                i <= s.len(),
                stack_order(s) == out@ + stack_order(s.take(i as int)),
            decreases i,
        {
            proof {
                assert(s.take(i as int).drop_last() =~= s.take(i - 1));
                assert(s.take(i as int).last() == s[i - 1]);
            }
            match self.entries[i - 1].window {
                Some(w) => {
                    out.push(w);
                    proof {
                        assert(stack_order(s) =~= out@ + stack_order(s.take(i - 1)));
                    }
                },
                None => {
                    proof {
                        assert(stack_order(s) =~= out@ + stack_order(s.take(i - 1)));
                    }
                },
            }
            i = i - 1;
        }
        proof {
            assert(s.take(0) =~= Seq::<(u32, Option<u64>)>::empty());
            assert(out@ + Seq::<u64>::empty() =~= out@);
        }
        out
    }

    /// A notification arrives; `fresh` is the window it would get.
    pub fn notify(&mut self, id: u32, payload: T, max: usize, fresh: u64) -> (r: NotifyOutcome)
        requires
            slots_wf(old(self).slots()),
            !window_used(old(self).slots(), fresh),
        ensures
            slots_wf(final(self).slots()),
            (final(self).slots(), r) == spec_notify(old(self).slots(), id, max as nat, fresh),
            match pos_of(old(self).slots(), id) {
                Some(k) => final(self).payloads() == old(self).payloads().update(k, payload),
                None => final(self).payloads() == old(self).payloads().push(payload),
            },
    {
        let ghost s = self.slots();
        let ghost ps = self.payloads();
        proof {
            lemma_pos_of(s, id);
        }
        match self.position(id) {
            Some(k) => {
                let old_window = self.entries[k].window;
                self.entries.set(k, NotifEntry { id, payload, window: old_window });
                proof {
                    assert(self.slots() =~= s);
                    assert(self.payloads() =~= ps.update(k as int, payload));
                }
                NotifyOutcome::Updated
            },
            None => {
                let n = self.shown_count();
                let (window, outcome) = if n >= max {
                    (None, NotifyOutcome::Queued)
                } else {
                    (Some(fresh), NotifyOutcome::Opened(fresh))
                };
                self.entries.push(NotifEntry { id, payload, window });
                proof {
                    let t = self.slots();
                    assert(t =~= s.push((id, window)));
                    assert(self.payloads() =~= ps.push(payload));
                    assert forall|i: int, j: int| 0 <= i < j < t.len() implies (#[trigger] t[i]).0 != (#[trigger] t[j]).0
                        && (t[i].1 is Some ==> t[i].1 != t[j].1) by {
                        assert(t[i] == s[i]);
                        if j < s.len() {
                            assert(t[j] == s[j]);
                        }
                    }
                }
                outcome
            },
        }
    }

    /// Gives the window `fresh` to the oldest waiting notification when
    /// fewer than `max` are shown; says which one got it.
    pub fn promote(&mut self, max: usize, fresh: u64) -> (r: Option<(u32, u64)>)
        requires
            slots_wf(old(self).slots()),
            !window_used(old(self).slots(), fresh),
        ensures
            slots_wf(final(self).slots()),
            (final(self).slots(), r) == spec_promote(old(self).slots(), max as nat, fresh),
            final(self).payloads() == old(self).payloads(),
    {
        let ghost s = self.slots();
        let ghost ps = self.payloads();
        if self.shown_count() >= max {
            return None;
        }
        proof {
            lemma_first_queued(s);
        }
        let mut j: usize = 0;
        while j < self.entries.len()
            invariant
                s == self.slots(),
                ps == self.payloads(),
                s == old(self).slots(),
                ps == old(self).payloads(),
                shown(s) < max,
                slots_wf(s),
                !window_used(s, fresh),
                j <= s.len(),
                forall|i: int| 0 <= i < j ==> (#[trigger] s[i]).1 is Some,
            decreases s.len() - j,
        {
            if self.entries[j].window.is_none() {
                proof {
                    lemma_first_queued(s);
                    match first_queued(s) {
                        Some(k) => {
                            if k < j { assert(s[k].1 is Some); }
                            if k > j { assert(s[j as int].1 is None); }
                        },
                        None => { assert(s[j as int].1 is Some); },
                    }
                }
                let id = self.entries[j].id;
                let e = self.entries.remove(j);
                self.entries.insert(j, NotifEntry { id: e.id, payload: e.payload, window: Some(fresh) });
                proof {
                    let t = self.slots();
                    assert(t =~= s.update(j as int, (s[j as int].0, Some(fresh))));
                    assert(self.payloads() =~= ps);
                    assert forall|a: int, b: int| 0 <= a < b < t.len() implies (#[trigger] t[a]).0 != (#[trigger] t[b]).0
                        && (t[a].1 is Some ==> t[a].1 != t[b].1) by {
                        if a == j {
                            assert(s[b].1 != Some(fresh));
                        } else if b == j {
                            assert(s[a].1 != Some(fresh));
                        }
                    }
                }
                return Some((id, fresh));
            }
            j = j + 1;
        }
        None
    }

    /// Closes notification `id`; `fresh` is the window a waiting one would
    /// get. Gives the closed one's window and the promotion, or `None` when
    /// there is no such notification.
    pub fn close(&mut self, id: u32, max: usize, fresh: u64) -> (r: Option<(Option<u64>, Option<(u32, u64)>)>)
        requires
            slots_wf(old(self).slots()),
            !window_used(old(self).slots(), fresh),
        ensures
            slots_wf(final(self).slots()),
            match spec_close(old(self).slots(), id, max as nat, fresh) {
                None => r is None && final(self).slots() == old(self).slots()
                    && final(self).payloads() == old(self).payloads(),
                Some((t, w, p)) => r == Some((w, p)) && final(self).slots() == t
                    && final(self).payloads() == old(self).payloads().remove(pos_of(old(self).slots(), id)->0),
            },
    {
        let ghost s = self.slots();
        let ghost ps = self.payloads();
        proof {
            lemma_pos_of(s, id);
        }
        match self.position(id) {
            None => None,
            Some(k) => {
                let e = self.entries.remove(k);
                let removed = e.window;
                proof {
                    let t = self.slots();
                    assert(t =~= s.remove(k as int));
                    assert(self.payloads() =~= ps.remove(k as int));
                    assert forall|a: int, b: int| 0 <= a < b < t.len() implies (#[trigger] t[a]).0 != (#[trigger] t[b]).0
                        && (t[a].1 is Some ==> t[a].1 != t[b].1) by {
                        let sa = if a < k { a } else { a + 1 };
                        let sb = if b < k { b } else { b + 1 };
                        assert(t[a] == s[sa] && t[b] == s[sb]);
                    }
                    assert forall|m: int| 0 <= m < t.len() implies (#[trigger] t[m]).1 != Some(fresh) by {
                        let sm = if m < k { m } else { m + 1 };
                        assert(t[m] == s[sm]);
                    }
                }
                let p = self.promote(max, fresh);
                Some((removed, p))
            },
        }
    }
}


/// A new notification is shown at once, in a new window, while fewer than
/// `max` are shown, and waits at the end of the line otherwise; either way
/// it joins after all the others.
pub proof fn law_new_notification(s: Slots, id: u32, max: nat, fresh: u64)
    requires
        pos_of(s, id) is None,
    ensures
        shown(s) < max ==> spec_notify(s, id, max, fresh) == (s.push((id, Some(fresh))), NotifyOutcome::Opened(fresh))
            && shown(spec_notify(s, id, max, fresh).0) == shown(s) + 1,
        shown(s) >= max ==> spec_notify(s, id, max, fresh) == (s.push((id, None)), NotifyOutcome::Queued)
            && shown(spec_notify(s, id, max, fresh).0) == shown(s),
{
    lemma_shown_push(s, (id, None));
    lemma_shown_push(s, (id, Some(fresh)));
}

/// The notification that takes a free window is the oldest of those
/// waiting: every notification before it has a window, and when none is
/// waiting no window is given.
pub proof fn law_promote_oldest_waiting(s: Slots, max: nat, fresh: u64)
    ensures
        spec_promote(s, max, fresh).1 matches Some((pid, w)) ==> (w == fresh && shown(s) < max
            && exists|j: int| 0 <= j < s.len() && s[j].0 == pid && s[j].1 is None
                && forall|i: int| 0 <= i < j ==> (#[trigger] s[i]).1 is Some),
        (forall|i: int| 0 <= i < s.len() ==> (#[trigger] s[i]).1 is Some) ==> spec_promote(s, max, fresh).1 is None,
        shown(s) >= max ==> spec_promote(s, max, fresh) == (s, None::<(u32, u64)>),
{
    lemma_first_queued(s);
}

} // verus!
