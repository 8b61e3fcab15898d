//! Which items of a tray menu are shown, and the submenu an item opens.

use vstd::prelude::*;
use crate::tray::menu_types::{item_view, items_view, lemma_items_view_len, lemma_items_view_push, visible_only, MenuItem, MenuItemView};

verus! {

/// The first item of `s` with the given id.
pub open spec fn find_id(s: Seq<MenuItemView>, id: i32) -> Option<MenuItemView>
    decreases s.len(),
{
    if s.len() == 0 {
        None
    } else if s[0].id == id {
        Some(s[0])
    } else {
        find_id(s.drop_first(), id)
    }
}

/// The submenu that the item with id `id` opens: none when there is no such
/// item, when it has no submenu or is disabled, or when none of its children
/// is visible.
pub open spec fn spec_submenu(s: Seq<MenuItemView>, id: i32) -> Option<Seq<MenuItemView>> {
    match find_id(s, id) {
        None => None,
        Some(item) => if !item.has_submenu || !item.enabled || visible_only(item.children).len() == 0 {
            None
        } else {
            Some(visible_only(item.children))
        },
    }
}

proof fn lemma_find_skip(s: Seq<MenuItemView>, i: int, id: i32)
    requires
        0 <= i <= s.len(),
        forall|k: int| 0 <= k < i ==> (#[trigger] s[k]).id != id,
    ensures
        find_id(s, id) == find_id(s.subrange(i, s.len() as int), id),
    decreases i,
{
    if i > 0 {
        let t = s.drop_first();
        assert forall|k: int| 0 <= k < i - 1 implies (#[trigger] t[k]).id != id by {
            assert(t[k] == s[k + 1]);
        }
        lemma_find_skip(t, i - 1, id);
        assert(t.subrange(i - 1, t.len() as int) =~= s.subrange(i, s.len() as int));
    } else {
        assert(s.subrange(0, s.len() as int) =~= s);
    }
}

/// The visible items of `items`, copied in order.
fn visible_copies(items: &Vec<MenuItem>) -> (r: Vec<MenuItem>)
    ensures
        items_view(r@) == visible_only(items_view(items@)),
{
    let mut out: Vec<MenuItem> = Vec::new();
    let mut i: usize = 0;
    while i < items.len()
        invariant
            i <= items@.len(),
            items_view(out@) == visible_only(items_view(items@.subrange(0, i as int))),
        decreases items@.len() - i,
    {
        proof {
            let t = items@.subrange(0, i as int);
            lemma_items_view_push(t, items@[i as int]);
            assert(t.push(items@[i as int]) =~= items@.subrange(0, i + 1));
            assert(items_view(items@.subrange(0, i + 1)).drop_last() =~= items_view(t));
        }
        if items[i].visible {
            let c = items[i].duplicate();
            proof {
                lemma_items_view_push(out@, c);
            }
            out.push(c);
        }
        i = i + 1;
    }
    proof {
        assert(items@.subrange(0, items@.len() as int) =~= items@);
    }
    out
}

/// The visible top-level items of a menu.
pub fn visible_items(root: &MenuItem) -> (r: Vec<MenuItem>)
    ensures
        items_view(r@) == visible_only(item_view(*root).children),
{
    visible_copies(&root.children)
}

/// The visible children of the item `id`, when that item opens a submenu.
pub fn submenu_items(items: &[MenuItem], id: i32) -> (r: Option<Vec<MenuItem>>)
    ensures
        match spec_submenu(items_view(items@), id) {
            None => r is None,
            Some(v) => r matches Some(x) && items_view(x@) == v,
        },
{
    let ghost sv = items_view(items@);
    proof {
        lemma_items_view_len(items@);
    }
    let mut i: usize = 0;
    while i < items.len()
        invariant
            i <= items@.len(),
            sv == items_view(items@),
            sv.len() == items@.len(),
            forall|k: int| 0 <= k < items@.len() ==> #[trigger] sv[k] == item_view(items@[k]),
            forall|k: int| 0 <= k < i ==> (#[trigger] sv[k]).id != id,
        decreases items@.len() - i,
    {
        if items[i].id == id {
            proof {
                lemma_find_skip(sv, i as int, id);
                assert(sv.subrange(i as int, sv.len() as int)[0] == sv[i as int]);
            }
            let item = &items[i];
            if !item.has_submenu || !item.enabled {
                return None;
            }
            let children = visible_copies(&item.children);
            if children.len() == 0 {
                proof {
                    lemma_items_view_len(children@);
                }
                return None;
            }
            proof {
                lemma_items_view_len(children@);
            }
            return Some(children);
        }
        proof {
            assert(sv[i as int] == item_view(items@[i as int]));
        }
        i = i + 1;
    }
    proof {
        lemma_find_skip(sv, i as int, id);
        assert(sv.subrange(i as int, sv.len() as int) =~= Seq::<MenuItemView>::empty());
    }
    None
}

/// One open level of a tray menu: the surface showing it, the menu service
/// it belongs to, and its visible items.
pub struct MenuLevel {
    pub window: u64,
    pub bus_name: String,
    pub menu_path: String,
    pub items: Vec<MenuItem>,
    pub width: u32,
    pub height: u32,
    pub active_child: Option<i32>,
}

/// The open tray menu: the root level first, each submenu after the level
/// it opened from, and the overlay surface that dismisses the menu when
/// clicked.
pub struct MenuStack {
    pub levels: Vec<MenuLevel>,
    pub overlay: Option<u64>,
}

/// The surfaces of `ls`, in order.
pub open spec fn windows_of(ls: Seq<MenuLevel>) -> Seq<u64> {
    Seq::new(ls.len(), |i: int| ls[i].window)
}

/// The levels that stay when every level from `n` on is closed.
pub open spec fn kept_below(ls: Seq<MenuLevel>, n: int) -> Seq<MenuLevel> {
    if n < ls.len() { ls.take(n) } else { ls }
}

/// The surfaces that closing every level from `n` on removes.
pub open spec fn closed_from(ls: Seq<MenuLevel>, n: int) -> Seq<u64> {
    if n < ls.len() { windows_of(ls.skip(n)) } else { seq![] }
}

/// The position of the first item with id `id`.
pub open spec fn index_of_id(s: Seq<MenuItemView>, id: i32) -> Option<int>
    decreases s.len(),
{
    if s.len() == 0 {
        None
    } else if s.last().id == id && index_of_id(s.drop_last(), id) is None {
        Some(s.len() - 1)
    } else {
        index_of_id(s.drop_last(), id)
    }
}

/// Whether hovering the item `id` of a level opens a submenu: the first
/// item with that id has a submenu and is enabled.
pub open spec fn hover_opens(items: Seq<MenuItemView>, id: i32) -> bool {
    find_id(items, id) matches Some(it) && it.has_submenu && it.enabled
}

/// The submenu shown for the item `id` of a level: the position of that
/// item among the visible items and its visible children; none when no
/// visible item has that id or none of its children is visible.
pub open spec fn submenu_at(items: Seq<MenuItemView>, id: i32) -> Option<(int, Seq<MenuItemView>)> {
    let vis = visible_only(items);
    match index_of_id(vis, id) {
        None => None,
        Some(k) => if visible_only(vis[k].children).len() == 0 {
            None
        } else {
            Some((k, visible_only(vis[k].children)))
        },
    }
}

/// What hovering an item of an open menu did.
pub enum MenuStep {
    /// The levels above the hovered one were closed (their surfaces are
    /// `removed`); a submenu with `children` is to open beside the visible
    /// item at `item_index`.
    OpenSubmenu { removed: Vec<u64>, item_index: usize, children: Vec<MenuItem> },
    /// The levels above the hovered one were closed.
    Closed { removed: Vec<u64> },
    /// Nothing changed.
    Unchanged,
}

proof fn lemma_index_of_id(s: Seq<MenuItemView>, id: i32, i: int)
    requires
        0 <= i <= s.len(),
        forall|k: int| 0 <= k < i ==> (#[trigger] s[k]).id != id,
    ensures
        index_of_id(s.take(i), id) is None,
        i < s.len() && s[i].id == id ==> index_of_id(s.take(i + 1), id) == Some(i),
        i == s.len() ==> index_of_id(s, id) is None,
    decreases i,
{
    if i > 0 {
        lemma_index_of_id(s, id, i - 1);
        assert(s.take(i).drop_last() =~= s.take(i - 1));
    }
    if i < s.len() {
        assert(s.take(i + 1).drop_last() =~= s.take(i));
    }
    if i == s.len() {
        assert(s.take(i) =~= s);
    }
}

proof fn lemma_index_of_id_prefix(s: Seq<MenuItemView>, id: i32, i: int)
    requires
        0 <= i < s.len(),
        index_of_id(s.take(i + 1), id) == Some(i),
    ensures
        index_of_id(s, id) == Some(i),
    decreases s.len() - i,
{
    if i + 1 == s.len() {
        assert(s.take(i + 1) =~= s);
    } else {
        let t = s.drop_last();
        assert(t.take(i + 1) =~= s.take(i + 1));
        lemma_index_of_id_prefix(t, id, i);
    }
}

fn windows_list(ls: &Vec<MenuLevel>) -> (r: Vec<u64>)
    ensures
        r@ == windows_of(ls@),
{
    let mut out: Vec<u64> = Vec::new();
    let mut i: usize = 0;
    while i < ls.len()
        invariant
            i <= ls@.len(),
            out@ == windows_of(ls@.take(i as int)),
        decreases ls@.len() - i,
    {
        out.push(ls[i].window);
        i = i + 1;
        proof {
            assert(out@ =~= windows_of(ls@.take(i as int)));
        }
    }
    proof {
        assert(ls@.take(i as int) =~= ls@);
    }
    out
}

impl MenuStack {
    /// No menu open.
    pub fn new() -> (r: MenuStack)
        ensures
            r.levels@.len() == 0,
            r.overlay is None,
    {
        MenuStack { levels: Vec::new(), overlay: None }
    }

    /// Closes every level and the overlay; gives the surfaces to remove,
    /// the levels' in order, then the overlay.
    pub fn close_menus(&mut self) -> (removed: Vec<u64>)
        ensures
            final(self).levels@.len() == 0,
            final(self).overlay is None,
            removed@ == windows_of(old(self).levels@) + match old(self).overlay {
                Some(o) => seq![o],
                None => Seq::<u64>::empty(),
            },
    {
        let mut removed = windows_list(&self.levels);
        self.levels = Vec::new();
        match self.overlay {
            Some(o) => {
                removed.push(o);
            },
            None => {},
        }
        self.overlay = None;
        removed
    }

    /// Closes every level from `level` on; gives their surfaces.
    pub fn close_from(&mut self, level: usize) -> (removed: Vec<u64>)
        ensures
            final(self).levels@ == kept_below(old(self).levels@, level as int),
            final(self).overlay == old(self).overlay,
            removed@ == closed_from(old(self).levels@, level as int),
    {
        if level < self.levels.len() {
            let dropped = self.levels.split_off(level);
            proof {
                assert(self.levels@ =~= old(self).levels@.take(level as int));
                assert(dropped@ =~= old(self).levels@.skip(level as int));
            }
            windows_list(&dropped)
        } else {
            Vec::new()
        }
    }

    /// Whether `window` is the overlay or shows a level of the menu.
    pub fn owns_window(&self, window: u64) -> (r: bool)
        ensures
            r == (self.overlay == Some(window) || windows_of(self.levels@).contains(window)),
    {
        if self.overlay == Some(window) {
            return true;
        }
        let mut i: usize = 0;
        while i < self.levels.len()
            invariant
                i <= self.levels@.len(),
                self.overlay != Some(window),
                forall|k: int| 0 <= k < i ==> (#[trigger] self.levels@[k]).window != window,
            decreases self.levels@.len() - i,
        {
            if self.levels[i].window == window {
                proof {
                    assert(windows_of(self.levels@)[i as int] == window);
                }
                return true;
            }
            i = i + 1;
        }
        proof {
            if windows_of(self.levels@).contains(window) {
                let k = choose|k: int| 0 <= k < windows_of(self.levels@).len() && windows_of(self.levels@)[k] == window;
                assert(self.levels@[k].window == window);
            }
        }
        false
    }

    /// Opens a new root menu: closes what was open, then shows `root` above
    /// the overlay `overlay`; gives the surfaces to remove.
    pub fn open_root_menu(&mut self, overlay: u64, root: MenuLevel) -> (removed: Vec<u64>)
        ensures
            final(self).levels@ == seq![root],
            final(self).overlay == Some(overlay),
            removed@ == windows_of(old(self).levels@) + match old(self).overlay {
                Some(o) => seq![o],
                None => Seq::<u64>::empty(),
            },
    {
        let removed = self.close_menus();
        self.overlay = Some(overlay);
        self.levels.push(root);
        proof {
            assert(self.levels@ =~= seq![root]);
        }
        removed
    }

    /// Shows a submenu as the new top level.
    pub fn push_level(&mut self, level: MenuLevel)
        ensures
            final(self).levels@ == old(self).levels@.push(level),
            final(self).overlay == old(self).overlay,
    {
        self.levels.push(level);
    }

    /// Hovering the item `id` of level `level`: when that item opens a
    /// submenu with visible children, the levels above `level` close and
    /// the submenu is to open; when it opens none, nothing changes; when it
    /// does not open one, the levels above `level` close.
    pub fn menu_hover(&mut self, level: usize, id: i32) -> (r: MenuStep)
        requires
            level < usize::MAX,
        ensures
            final(self).overlay == old(self).overlay,
            ({
                let ls = old(self).levels@;
                if level < ls.len() && hover_opens(items_view(ls[level as int].items@), id) {
                    match submenu_at(items_view(ls[level as int].items@), id) {
                        None => r is Unchanged && final(self).levels@ == ls,
                        Some((k, ch)) => r matches MenuStep::OpenSubmenu { removed, item_index, children }
                            && removed@ == closed_from(ls, level + 1)
                            && item_index == k
                            && items_view(children@) == ch
                            && final(self).levels@ == ls.take(level + 1),
                    }
                } else {
                    r matches MenuStep::Closed { removed }
                        && removed@ == closed_from(ls, level + 1)
                        && final(self).levels@ == kept_below(ls, level + 1)
                }
            }),
    {
        let opens = level < self.levels.len() && opens_submenu(&self.levels[level].items, id);
        if !opens {
            let removed = self.close_from(level + 1);
            return MenuStep::Closed { removed };
        }
        let ghost items = items_view(self.levels@[level as int].items@);
        let visible = visible_copies(&self.levels[level].items);
        proof {
            lemma_items_view_len(visible@);
        }
        let mut k: usize = 0;
        while k < visible.len()
            invariant
                k <= visible@.len(),
                items_view(visible@) == visible_only(items),
                items_view(visible@).len() == visible@.len(),
                forall|j: int| 0 <= j < visible@.len() ==> #[trigger] items_view(visible@)[j] == item_view(visible@[j]),
                forall|j: int| 0 <= j < k ==> (#[trigger] items_view(visible@)[j]).id != id,
            ensures
                k < visible@.len() ==> visible@[k as int].id == id,
            decreases visible@.len() - k,
        {
            if visible[k].id == id {
                break;
            }
            proof {
                assert(items_view(visible@)[k as int] == item_view(visible@[k as int]));
            }
            k = k + 1;
        }
        proof {
            lemma_index_of_id(items_view(visible@), id, k as int);
            if k < visible@.len() {
                assert(items_view(visible@)[k as int] == item_view(visible@[k as int]));
                lemma_index_of_id_prefix(items_view(visible@), id, k as int);
            }
        }
        if k == visible.len() {
            return MenuStep::Unchanged;
        }
        let children = visible_copies(&visible[k].children);
        proof {
            lemma_items_view_len(children@);
        }
        if children.len() == 0 {
            return MenuStep::Unchanged;
        }
        let removed = self.close_from(level + 1);
        MenuStep::OpenSubmenu { removed, item_index: k, children }
    }
}

/// Whether the first item with id `id` has a submenu and is enabled.
fn opens_submenu(items: &Vec<MenuItem>, id: i32) -> (r: bool)
    ensures
        r == hover_opens(items_view(items@), id),
{
    let ghost sv = items_view(items@);
    proof {
        lemma_items_view_len(items@);
    }
    let mut i: usize = 0;
    while i < items.len()
        invariant
            i <= items@.len(),
            sv == items_view(items@),
            sv.len() == items@.len(),
            forall|k: int| 0 <= k < items@.len() ==> #[trigger] sv[k] == item_view(items@[k]),
            forall|k: int| 0 <= k < i ==> (#[trigger] sv[k]).id != id,
        decreases items@.len() - i,
    {
        if items[i].id == id {
            proof {
                lemma_find_skip(sv, i as int, id);
                assert(sv.subrange(i as int, sv.len() as int)[0] == sv[i as int]);
            }
            return items[i].has_submenu && items[i].enabled;
        }
        proof {
            assert(sv[i as int] == item_view(items@[i as int]));
        }
        i = i + 1;
    }
    proof {
        lemma_find_skip(sv, i as int, id);
        assert(sv.subrange(i as int, sv.len() as int) =~= Seq::<MenuItemView>::empty());
    }
    false
}

/// Closing the levels from `n` on accounts for every surface: the kept
/// levels' surfaces followed by the removed ones are all the surfaces, in
/// order; closing from `n` a second time removes nothing more.
pub proof fn law_close_from_accounts(ls: Seq<MenuLevel>, n: nat)
    ensures
        windows_of(kept_below(ls, n as int)) + closed_from(ls, n as int) == windows_of(ls),
        kept_below(kept_below(ls, n as int), n as int) == kept_below(ls, n as int),
        closed_from(kept_below(ls, n as int), n as int).len() == 0,
{
    assert(windows_of(kept_below(ls, n as int)) + closed_from(ls, n as int) =~= windows_of(ls));
    if n < ls.len() {
        assert(ls.take(n as int).take(n as int) =~= ls.take(n as int));
    }
}

} // verus!
