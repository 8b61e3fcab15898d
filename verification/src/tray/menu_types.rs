//! The items of a tray application's menu, as its menu service describes
//! them.

use vstd::prelude::*;

verus! {

/// The check or radio state an item shows.
#[derive(Debug, Clone, Copy, PartialEq, Eq, Structural)]
pub enum Toggle {
    NoToggle,
    Check(bool),
    Radio(bool),
}

/// The icon of an item: a themed icon name, or PNG data.
#[derive(Debug, PartialEq)]
pub enum MenuIcon {
    NoIcon,
    Name(String),
    Png(Vec<u8>),
}

/// An item of a tray menu, with its submenu.
#[derive(Debug, PartialEq)]
pub struct MenuItem {
    pub id: i32,
    pub label: String,
    pub enabled: bool,
    pub visible: bool,
    pub separator: bool,
    pub toggle: Toggle,
    pub icon: MenuIcon,
    pub has_submenu: bool,
    pub children: Vec<MenuItem>,
}

pub enum MenuIconView {
    NoIcon,
    Name(Seq<char>),
    Png(Seq<u8>),
}

/// A menu item as a mathematical value.
pub struct MenuItemView {
    pub id: i32,
    pub label: Seq<char>,
    pub enabled: bool,
    pub visible: bool,
    pub separator: bool,
    pub toggle: Toggle,
    pub icon: MenuIconView,
    pub has_submenu: bool,
    pub children: Seq<MenuItemView>,
}

pub open spec fn icon_view(i: MenuIcon) -> MenuIconView {
    match i {
        MenuIcon::NoIcon => MenuIconView::NoIcon,
        MenuIcon::Name(n) => MenuIconView::Name(n@),
        MenuIcon::Png(p) => MenuIconView::Png(p@),
    }
}

pub open spec fn item_view(m: MenuItem) -> MenuItemView
    decreases m,
{
    MenuItemView {
        id: m.id,
        label: m.label@,
        enabled: m.enabled,
        visible: m.visible,
        separator: m.separator,
        toggle: m.toggle,
        icon: icon_view(m.icon),
        has_submenu: m.has_submenu,
        children: items_view(m.children@),
    }
}

pub open spec fn items_view(s: Seq<MenuItem>) -> Seq<MenuItemView>
    decreases s,
{
    if s.len() == 0 {
        seq![]
    } else {
        items_view(s.subrange(0, s.len() - 1)).push(item_view(s[s.len() - 1]))
    }
}

/// The visible items of `s`, in order.
pub open spec fn visible_only(s: Seq<MenuItemView>) -> Seq<MenuItemView>
    decreases s.len(),
{
    if s.len() == 0 {
        seq![]
    } else if s.last().visible {
        visible_only(s.drop_last()).push(s.last())
    } else {
        visible_only(s.drop_last())
    }
}

pub proof fn lemma_items_view_len(s: Seq<MenuItem>)
    ensures
        items_view(s).len() == s.len(),
        forall|k: int| 0 <= k < s.len() ==> #[trigger] items_view(s)[k] == item_view(s[k]),
    decreases s.len(),
{
    if s.len() > 0 {
        let t = s.subrange(0, s.len() - 1);
        lemma_items_view_len(t);
        assert forall|k: int| 0 <= k < s.len() implies #[trigger] items_view(s)[k] == item_view(s[k]) by {
            if k < s.len() - 1 {
                assert(t[k] == s[k]);
            }
        }
    }
}

/// The view of a prefix extended by one item.
pub proof fn lemma_items_view_push(s: Seq<MenuItem>, m: MenuItem)
    ensures
        items_view(s.push(m)) == items_view(s).push(item_view(m)),
{
    assert(s.push(m).subrange(0, s.len() as int) =~= s);
}

impl MenuIcon {
    /// A copy of the icon.
    pub fn duplicate(&self) -> (r: MenuIcon)
        ensures
            icon_view(r) == icon_view(*self),
    {
        match self {
            MenuIcon::NoIcon => MenuIcon::NoIcon,
            MenuIcon::Name(n) => MenuIcon::Name(n.clone()),
            MenuIcon::Png(p) => MenuIcon::Png(p.clone()),
        }
    }
}

impl MenuItem {
    /// A deep copy of the item and its submenu.
    pub fn duplicate(&self) -> (r: MenuItem)
        ensures
            item_view(r) == item_view(*self),
        decreases *self,
    {
        let mut children: Vec<MenuItem> = Vec::new();
        let mut i: usize = 0;
        while i < self.children.len()
            invariant
                i <= self.children@.len(),
                items_view(children@) == items_view(self.children@.subrange(0, i as int)),
            decreases self.children@.len() - i,
        {
            let c = self.children[i].duplicate();
            proof {
                lemma_items_view_push(children@, c);
                lemma_items_view_push(self.children@.subrange(0, i as int), self.children@[i as int]);
                assert(self.children@.subrange(0, i as int).push(self.children@[i as int])
                    =~= self.children@.subrange(0, i + 1));
            }
            children.push(c);
            i = i + 1;
        }
        proof {
            assert(self.children@.subrange(0, self.children@.len() as int) =~= self.children@);
        }
        MenuItem {
            id: self.id,
            label: self.label.clone(),
            enabled: self.enabled,
            visible: self.visible,
            separator: self.separator,
            toggle: self.toggle,
            icon: self.icon.duplicate(),
            has_submenu: self.has_submenu,
            children,
        }
    }
}


/// The visible items are exactly the items of `s` that are visible, in
/// their order: each kept item is visible and an item of `s`, and every
/// visible item of `s` is kept.
pub proof fn law_visible_only(s: Seq<MenuItemView>)
    ensures
        forall|k: int| 0 <= k < visible_only(s).len() ==> (#[trigger] visible_only(s)[k]).visible && s.contains(visible_only(s)[k]),
        forall|k: int| 0 <= k < s.len() && (#[trigger] s[k]).visible ==> visible_only(s).contains(s[k]),
        visible_only(s).len() <= s.len(),
        (forall|k: int| 0 <= k < s.len() ==> (#[trigger] s[k]).visible) ==> visible_only(s) == s,
    decreases s.len(),
{
    if s.len() > 0 {
        let t = s.drop_last();
        law_visible_only(t);
        let v = visible_only(t);
        assert forall|k: int| 0 <= k < visible_only(s).len() implies (#[trigger] visible_only(s)[k]).visible && s.contains(visible_only(s)[k]) by {
            if k < v.len() {
                assert(visible_only(s)[k] == v[k]);
                let j = choose|j: int| 0 <= j < t.len() && t[j] == v[k];
                assert(s[j] == v[k]);
            } else {
                assert(visible_only(s)[k] == s.last());
                assert(s[s.len() - 1] == s.last());
            }
        }
        assert forall|k: int| 0 <= k < s.len() && (#[trigger] s[k]).visible implies visible_only(s).contains(s[k]) by {
            if k < s.len() - 1 {
                assert(t[k] == s[k]);
                let j = choose|j: int| 0 <= j < v.len() && v[j] == s[k];
                assert(visible_only(s)[j] == s[k]);
            } else {
                assert(visible_only(s)[v.len() as int] == s[k]);
            }
        }
        if forall|k: int| 0 <= k < s.len() ==> (#[trigger] s[k]).visible {
            assert forall|k: int| 0 <= k < t.len() implies (#[trigger] t[k]).visible by {
                assert(t[k] == s[k]);
            }
            assert(s.last() == s[s.len() - 1]);
            assert(v.push(s.last()) =~= s);
        }
    }
}

} // verus!
