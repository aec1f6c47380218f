//! What the terminal view decides, apart from drawing: which row a mouse
//! cell lands on, the right-click copy menu, keyboard focus and selection,
//! and what each key does.
use vstd::prelude::*;
use crate::ids::{label_of, NameDb};
use crate::rows::{device_matches, lowercase, matches_query};
use crate::usb::is_root_name;
use crate::text::{chars_of, hex4, owned, push_hex4, push_str, string_of};
use crate::usb::{Device, DeviceView};

verus! {

// ---------------------------------------------------------------------------
// Screen geometry

/// A rectangle of terminal cells.
#[derive(Debug, Clone, Copy, PartialEq, Eq)]
pub struct Rect {
    pub x: u16,
    pub y: u16,
    pub width: u16,
    pub height: u16,
}

impl Rect {
    /// A rectangle at (`x`, `y`); the width and height are cut down so that
    /// the right and bottom edges fit in a `u16`.
    pub fn new(x: u16, y: u16, width: u16, height: u16) -> (r: Rect)
        ensures
            r.x == x,
            r.y == y,
            r.width == (if width > u16::MAX - x {
                (u16::MAX - x) as u16
            } else {
                width
            }),
            r.height == (if height > u16::MAX - y {
                (u16::MAX - y) as u16
            } else {
                height
            }),
    {
        let max_width = u16::MAX - x;
        let max_height = u16::MAX - y;
        Rect {
            x,
            y,
            width: if width > max_width {
                max_width
            } else {
                width
            },
            height: if height > max_height {
                max_height
            } else {
                height
            },
        }
    }

    /// The first column right of the rectangle (at most `u16::MAX`).
    pub open spec fn right_edge(self) -> u16 {
        self.x.saturating_add(self.width)
    }

    /// The first row below the rectangle (at most `u16::MAX`).
    pub open spec fn bottom_edge(self) -> u16 {
        self.y.saturating_add(self.height)
    }

    /// The cell (`col`, `row`) lies in the rectangle.
    pub open spec fn holds(self, col: u16, row: u16) -> bool {
        self.x <= col < self.right_edge() && self.y <= row < self.bottom_edge()
    }

    pub fn right(&self) -> (r: u16)
        ensures
            r == self.right_edge(),
    {
        self.x.saturating_add(self.width)
    }

    pub fn bottom(&self) -> (r: u16)
        ensures
            r == self.bottom_edge(),
    {
        self.y.saturating_add(self.height)
    }

    pub fn contains(&self, col: u16, row: u16) -> (b: bool)
        ensures
            b == self.holds(col, row),
    {
        col >= self.x && col < self.right() && row >= self.y && row < self.bottom()
    }
}

/// The list row under a cell of a bordered pane scrolled by `offset` and
/// holding `len` rows: none on a border or past the list.
pub open spec fn row_at_of(pane: Rect, offset: int, len: int, col: u16, row: u16) -> Option<int> {
    if !pane.holds(col, row) {
        None
    } else if row < pane.y + 1 || row >= pane.bottom_edge() - 1 {
        None
    } else if offset + (row - (pane.y + 1)) < len {
        Some(offset + (row - (pane.y + 1)))
    } else {
        None
    }
}

/// Map a screen cell to a list row inside a bordered pane, given its scroll
/// `offset` and item `len`. `None` if the cell is on a border or past the list.
pub fn row_at(pane: Rect, offset: usize, len: usize, col: u16, row: u16) -> (r: Option<usize>)
    requires
        offset + u16::MAX <= usize::MAX,
    ensures
        r == (match row_at_of(pane, offset as int, len as int, col, row) {
            Some(i) => Some(i as usize),
            None => None,
        }),
{
    if !pane.contains(col, row) {
        return None;
    }
    let top = pane.y + 1;
    if row < top || row >= pane.bottom() - 1 {
        return None;
    }
    let idx = offset + (row - top) as usize;
    if idx < len {
        Some(idx)
    } else {
        None
    }
}

// ---------------------------------------------------------------------------
// The copy menu

/// Right-click copy menu. Items are (label, clipboard text, toast noun).
pub struct ContextMenu {
    pub rect: Rect,
    pub items: Vec<(String, String, String)>,
    pub hover: usize,
}

/// The item of a menu of `n` items under a cell: the columns inside the
/// borders, the rows from just below the top border on.
pub open spec fn menu_item_of(rect: Rect, n: int, col: u16, row: u16) -> Option<int> {
    if col <= rect.x || col >= rect.right_edge() - 1 {
        None
    } else if row < rect.y + 1 {
        None
    } else if row - (rect.y + 1) < n {
        Some(row - (rect.y + 1))
    } else {
        None
    }
}

/// The hit test can be computed without overflow: a cell right of the left
/// border needs a right edge of at least 1, and one inside the columns a top
/// border below the last row.
pub open spec fn menu_hit_defined(rect: Rect, col: u16) -> bool {
    col <= rect.x || (rect.right_edge() >= 1 && (col >= rect.right_edge() - 1 || rect.y < u16::MAX))
}

impl ContextMenu {
    /// Which item (if any) sits under the given screen cell.
    pub fn item_at(&self, col: u16, row: u16) -> (r: Option<usize>)
        requires
            menu_hit_defined(self.rect, col),
        ensures
            r == (match menu_item_of(self.rect, self.items.len() as int, col, row) {
                Some(i) => Some(i as usize),
                None => None,
            }),
    {
        if col <= self.rect.x || col >= self.rect.right() - 1 {
            return None;
        }
        let top = self.rect.y + 1;
        if row < top {
            return None;
        }
        let i = (row - top) as usize;
        if i < self.items.len() {
            Some(i)
        } else {
            None
        }
    }
}

/// The number of characters of the widest label, 4 for no items.
pub open spec fn widest_label(items: Seq<(String, String, String)>) -> nat
    decreases items.len(),
{
    if items.len() == 0 {
        4
    } else {
        let rest = widest_label(items.drop_last());
        let w = items.last().0@.len();
        if items.len() == 1 {
            w
        } else if w > rest {
            w
        } else {
            rest
        }
    }
}

/// Where the copy menu opens for a click at (`col`, `row`): sized to the
/// widest label and the number of items, moved left and up as far as needed
/// to stay on the screen.
pub open spec fn menu_rect_of(screen: Rect, col: u16, row: u16, items: Seq<(String, String, String)>) -> Rect {
    let w = (widest_label(items) + 4) as u16;
    let h = (items.len() + 2) as u16;
    let xr = screen.right_edge().saturating_sub(w);
    let yb = screen.bottom_edge().saturating_sub(h);
    Rect {
        x: if col < xr {
            col
        } else {
            xr
        },
        y: if row < yb {
            row
        } else {
            yb
        },
        width: w,
        height: h,
    }
}

/// The menu fits the arithmetic of a `u16` screen.
pub open spec fn menu_fits(items: Seq<(String, String, String)>) -> bool {
    &&& widest_label(items) + 4 <= u16::MAX
    &&& items.len() + 2 <= u16::MAX
}

fn char_count(s: &str) -> (n: usize)
    ensures
        n == s@.len(),
{
    let cs = chars_of(s);
    cs.len()
}

/// The rectangle of a copy menu opened at (`col`, `row`) on `screen`.
pub fn menu_rect(screen: Rect, col: u16, row: u16, items: &Vec<(String, String, String)>) -> (r: Rect)
    requires
        menu_fits(items@),
    ensures
        r == menu_rect_of(screen, col, row, items@),
{
    let mut widest: usize = 4;
    let mut i: usize = 0;
    while i < items.len()
        invariant
            i <= items.len(),
            widest == widest_label(items@.take(i as int)),
        decreases items.len() - i,
    {
        let w = char_count(items[i].0.as_str());
        assert(items@.take(i + 1).drop_last() =~= items@.take(i as int));
        if i == 0 || w > widest {
            widest = w;
        }
        i = i + 1;
    }
    assert(items@.take(items.len() as int) =~= items@);
    let w = widest as u16 + 4;
    let h = items.len() as u16 + 2;
    let xr = screen.right().saturating_sub(w);
    let yb = screen.bottom().saturating_sub(h);
    Rect {
        x: if col < xr {
            col
        } else {
            xr
        },
        y: if row < yb {
            row
        } else {
            yb
        },
        width: w,
        height: h,
    }
}

// ---------------------------------------------------------------------------
// What can be copied

/// `format!("{:04x}:{:04x}", vid, pid)` for a device.
pub open spec fn vid_pid_of(d: DeviceView) -> Seq<char> {
    hex4(d.vid) + seq![':'] + hex4(d.pid)
}

/// A device's ids as `vvvv:pppp`.
pub fn vid_pid(d: &Device) -> (s: String)
    ensures
        s@ == vid_pid_of(d@),
{
    let mut s = String::new();
    push_hex4(&mut s, d.vid);
    s.push(':');
    push_hex4(&mut s, d.pid);
    assert(s@ =~= vid_pid_of(d@));
    s
}

/// The labelled block copied for a device: label, ids and sysfs name, and
/// the serial when there is one, a line each.
pub open spec fn details_of(d: DeviceView, db: &NameDb) -> Seq<char> {
    let base = label_of(d, db) + seq!['\n'] + vid_pid_of(d) + seq!['\n'] + d.name;
    match d.serial {
        Some(s) => base + seq!['\n'] + s,
        None => base,
    }
}

/// The full details of a device, as yanked with `Y`.
pub fn details_text(d: &Device, names: &NameDb) -> (s: String)
    ensures
        s@ == details_of(d@, names),
{
    let mut s = d.label(names);
    s.push('\n');
    let id = vid_pid(d);
    push_str(&mut s, id.as_str());
    s.push('\n');
    push_str(&mut s, d.name.as_str());
    match &d.serial {
        Some(serial) => {
            s.push('\n');
            push_str(&mut s, serial.as_str());
        },
        None => {},
    }
    assert(s@ =~= details_of(d@, names));
    s
}

/// The text views of menu items.
pub open spec fn item_views(items: Seq<(String, String, String)>) -> Seq<(Seq<char>, Seq<char>, Seq<char>)> {
    items.map_values(|t: (String, String, String)| (t.0@, t.1@, t.2@))
}

/// The copy menu of a device: its ids, name, sysfs path, serial (when it has
/// one) and full details.
pub open spec fn device_menu_of(d: DeviceView, db: &NameDb) -> Seq<(Seq<char>, Seq<char>, Seq<char>)> {
    let id = vid_pid_of(d);
    let head = seq![
        ("vid:pid"@, id, id),
        ("name"@, label_of(d, db), "name"@),
        ("sysfs path"@, d.name, "sysfs path"@),
    ];
    let mid = match d.serial {
        Some(s) => head.push(("serial"@, s, "serial"@)),
        None => head,
    };
    mid.push(("full details"@, details_of(d, db), d.name + " details"@))
}

/// The items of the copy menu opened on a device row.
pub fn device_menu(d: &Device, names: &NameDb) -> (items: Vec<(String, String, String)>)
    ensures
        item_views(items@) == device_menu_of(d@, names),
{
    let id = vid_pid(d);
    let mut items: Vec<(String, String, String)> = Vec::new();
    items.push((owned("vid:pid"), id.clone(), id));
    items.push((owned("name"), d.label(names), owned("name")));
    items.push((owned("sysfs path"), d.name.clone(), owned("sysfs path")));
    match &d.serial {
        Some(serial) => {
            items.push((owned("serial"), serial.clone(), owned("serial")));
        },
        None => {},
    }
    let mut what = d.name.clone();
    push_str(&mut what, " details");
    items.push((owned("full details"), details_text(d, names), what));
    assert(item_views(items@) =~= device_menu_of(d@, names));
    items
}

/// The copy menu of a hot-plug event: its ids and its name.
pub open spec fn event_menu_of(id: Seq<char>, name: Seq<char>) -> Seq<(Seq<char>, Seq<char>, Seq<char>)> {
    seq![("id"@, id, "event id"@), ("name"@, name, "event name"@)]
}

/// The items of the copy menu opened on an event row.
pub fn event_menu(id: &str, name: &str) -> (items: Vec<(String, String, String)>)
    ensures
        item_views(items@) == event_menu_of(id@, name@),
{
    let mut items: Vec<(String, String, String)> = Vec::new();
    items.push((owned("id"), owned(id), owned("event id")));
    items.push((owned("name"), owned(name), owned("event name")));
    assert(item_views(items@) =~= event_menu_of(id@, name@));
    items
}

/// What yanking a device copies, and the noun of the toast: the ids (named
/// by themselves), or with `full` the details block.
pub open spec fn device_copy_of(d: DeviceView, db: &NameDb, full: bool) -> (Seq<char>, Seq<char>) {
    if full {
        (details_of(d, db), d.name + " details"@)
    } else {
        (vid_pid_of(d), vid_pid_of(d))
    }
}

pub fn device_copy(d: &Device, names: &NameDb, full: bool) -> (r: (String, String))
    ensures
        (r.0@, r.1@) == device_copy_of(d@, names, full),
{
    if full {
        let mut what = d.name.clone();
        push_str(&mut what, " details");
        (details_text(d, names), what)
    } else {
        let id = vid_pid(d);
        (id.clone(), id)
    }
}

/// What yanking an event copies, and the noun of the toast: its name with
/// `full`, else its ids.
pub open spec fn event_copy_of(id: Seq<char>, name: Seq<char>, full: bool) -> (Seq<char>, Seq<char>) {
    if full {
        (name, "event name"@)
    } else {
        (id, "event id"@)
    }
}

pub fn event_copy(id: &str, name: &str, full: bool) -> (r: (String, String))
    ensures
        (r.0@, r.1@) == event_copy_of(id@, name@, full),
{
    if full {
        (owned(name), owned("event name"))
    } else {
        (owned(id), owned("event id"))
    }
}

// ---------------------------------------------------------------------------
// Focus and selection

/// The pane that holds keyboard focus.
#[derive(Debug, Clone, Copy, PartialEq, Eq)]
pub enum Focus {
    Tree,
    Events,
}

/// Keyboard focus, and the selected row and row count of each pane.
#[derive(Debug, Clone, Copy, PartialEq, Eq)]
pub struct Panes {
    pub focus: Focus,
    pub tree: Option<usize>,
    pub tree_len: usize,
    pub log: Option<usize>,
    pub log_len: usize,
}

/// Focus moved to `f`: entering the events pane parks the cursor on the
/// newest entry if nothing there is selected; returning to the tree clears
/// the events selection so that pane snaps back to newest.
pub open spec fn focused_on(p: Panes, f: Focus) -> Panes {
    Panes {
        focus: f,
        log: match f {
            Focus::Events => if p.log is None && p.log_len > 0 {
                Some(0)
            } else {
                p.log
            },
            Focus::Tree => None,
        },
        ..p
    }
}

/// The other pane.
pub open spec fn other_pane(f: Focus) -> Focus {
    match f {
        Focus::Tree => Focus::Events,
        Focus::Events => Focus::Tree,
    }
}

/// A selection moved by `delta` in a list of `len` rows, kept within the
/// list; nothing changes in an empty list.
pub open spec fn moved_by(sel: Option<usize>, len: usize, delta: int) -> Option<usize> {
    if len == 0 {
        sel
    } else {
        Some(clamped(sel.unwrap_or(0) + delta, len) as usize)
    }
}

/// `v` clamped to the rows `0 .. len`.
pub open spec fn clamped(v: int, len: usize) -> int {
    if v < 0 {
        0
    } else if v > len - 1 {
        len - 1
    } else {
        v
    }
}

/// A selection moved to row `idx` (clamped); nothing changes in an empty
/// list.
pub open spec fn moved_to(sel: Option<usize>, len: usize, idx: int) -> Option<usize> {
    if len == 0 {
        sel
    } else {
        Some(clamped(idx, len) as usize)
    }
}

/// The arithmetic of moving the selection of the focused pane stays within
/// `isize`.
pub open spec fn nav_defined(p: Panes, delta: int) -> bool {
    let (sel, len) = match p.focus {
        Focus::Tree => (p.tree, p.tree_len),
        Focus::Events => (p.log, p.log_len),
    };
    len <= isize::MAX && sel.unwrap_or(0) <= isize::MAX && isize::MIN <= sel.unwrap_or(0) + delta
        <= isize::MAX
}

fn clamp_index(v: isize, len: usize) -> (r: usize)
    requires
        0 < len <= isize::MAX,
    ensures
        r == clamped(v as int, len),
{
    let hi = len as isize - 1;
    if v < 0 {
        0
    } else if v > hi {
        hi as usize
    } else {
        v as usize
    }
}

impl Panes {
    /// Move keyboard focus to `f`.
    pub fn set_focus(&mut self, f: Focus)
        ensures
            *final(self) == focused_on(*old(self), f),
    {
        self.focus = f;
        match f {
            Focus::Events => {
                if self.log.is_none() && self.log_len > 0 {
                    self.log = Some(0);
                }
            },
            Focus::Tree => {
                self.log = None;
            },
        }
    }

    /// Toggle keyboard focus between the tree and events panes.
    pub fn toggle_focus(&mut self)
        ensures
            *final(self) == focused_on(*old(self), other_pane(old(self).focus)),
    {
        let f = match self.focus {
            Focus::Tree => Focus::Events,
            Focus::Events => Focus::Tree,
        };
        self.set_focus(f);
    }

    /// Move the selection in the focused pane by `delta` rows.
    pub fn nav(&mut self, delta: isize)
        requires
            nav_defined(*old(self), delta as int),
        ensures
            *final(self) == (match old(self).focus {
                Focus::Tree => Panes { tree: moved_by(old(self).tree, old(self).tree_len, delta as int), ..*old(self) },
                Focus::Events => Panes { log: moved_by(old(self).log, old(self).log_len, delta as int), ..*old(self) },
            }),
    {
        match self.focus {
            Focus::Tree => {
                if self.tree_len > 0 {
                    let cur = match self.tree {
                        Some(s) => s,
                        None => 0,
                    } as isize;
                    self.tree = Some(clamp_index(cur + delta, self.tree_len));
                }
            },
            Focus::Events => {
                if self.log_len > 0 {
                    let cur = match self.log {
                        Some(s) => s,
                        None => 0,
                    } as isize;
                    self.log = Some(clamp_index(cur + delta, self.log_len));
                }
            },
        }
    }

    /// Jump to an absolute row in the focused pane (`0` = top,
    /// `isize::MAX` = bottom).
    pub fn nav_to(&mut self, idx: isize)
        requires
            old(self).tree_len <= isize::MAX,
            old(self).log_len <= isize::MAX,
        ensures
            *final(self) == (match old(self).focus {
                Focus::Tree => Panes { tree: moved_to(old(self).tree, old(self).tree_len, idx as int), ..*old(self) },
                Focus::Events => Panes { log: moved_to(old(self).log, old(self).log_len, idx as int), ..*old(self) },
            }),
    {
        match self.focus {
            Focus::Tree => {
                if self.tree_len > 0 {
                    self.tree = Some(clamp_index(idx, self.tree_len));
                }
            },
            Focus::Events => {
                if self.log_len > 0 {
                    self.log = Some(clamp_index(idx, self.log_len));
                }
            },
        }
    }

    /// Focus pane `f` and select its row `idx`, as a click on that row does.
    pub fn select(&mut self, f: Focus, idx: usize)
        ensures
            *final(self) == (match f {
                Focus::Tree => Panes { tree: Some(idx), ..focused_on(*old(self), f) },
                Focus::Events => Panes { log: Some(idx), ..focused_on(*old(self), f) },
            }),
    {
        self.set_focus(f);
        match f {
            Focus::Tree => {
                self.tree = Some(idx);
            },
            Focus::Events => {
                self.log = Some(idx);
            },
        }
    }
}

/// Moving the selection of a non-empty list always lands on one of its rows.
pub proof fn lemma_moves_stay_in_list(sel: Option<usize>, len: usize, delta: int, idx: int)
    requires
        len > 0,
    ensures
        moved_by(sel, len, delta) matches Some(i) && i < len,
        moved_to(sel, len, idx) matches Some(i) && i < len,
{
}

/// The pane and row under a click: the tree's rows first, then the events'.
pub open spec fn click_target_of(
    tree_rect: Rect,
    tree_offset: int,
    log_rect: Rect,
    log_offset: int,
    p: Panes,
    col: u16,
    row: u16,
) -> Option<(Focus, int)> {
    match row_at_of(tree_rect, tree_offset, p.tree_len as int, col, row) {
        Some(i) => Some((Focus::Tree, i)),
        None => match row_at_of(log_rect, log_offset, p.log_len as int, col, row) {
            Some(i) => Some((Focus::Events, i)),
            None => None,
        },
    }
}

/// Which pane's row a left click at (`col`, `row`) selects, if any.
pub fn click_target(
    tree_rect: Rect,
    tree_offset: usize,
    log_rect: Rect,
    log_offset: usize,
    p: &Panes,
    col: u16,
    row: u16,
) -> (r: Option<(Focus, usize)>)
    requires
        tree_offset + u16::MAX <= usize::MAX,
        log_offset + u16::MAX <= usize::MAX,
    ensures
        r == (match click_target_of(tree_rect, tree_offset as int, log_rect, log_offset as int, *p, col, row) {
            Some((f, i)) => Some((f, i as usize)),
            None => None,
        }),
{
    match row_at(tree_rect, tree_offset, p.tree_len, col, row) {
        Some(i) => Some((Focus::Tree, i)),
        None => match row_at(log_rect, log_offset, p.log_len, col, row) {
            Some(i) => Some((Focus::Events, i)),
            None => None,
        },
    }
}

/// The pane whose selection the wheel moves: the one under the pointer.
pub fn scroll_target(tree_rect: Rect, log_rect: Rect, col: u16, row: u16) -> (r: Option<Focus>)
    ensures
        r == (if tree_rect.holds(col, row) {
            Some(Focus::Tree)
        } else if log_rect.holds(col, row) {
            Some(Focus::Events)
        } else {
            None
        }),
{
    if tree_rect.contains(col, row) {
        Some(Focus::Tree)
    } else if log_rect.contains(col, row) {
        Some(Focus::Events)
    } else {
        None
    }
}

// ---------------------------------------------------------------------------
// Keys

/// A key press, as far as the view tells keys apart.
#[derive(Debug, Clone, Copy, PartialEq, Eq)]
pub enum Key {
    Char(char),
    Esc,
    Tab,
    BackTab,
    Up,
    Down,
    Left,
    Right,
    Home,
    End,
    Enter,
    Backspace,
    Other,
}

/// What a key press asks of the view.
#[derive(Debug, Clone, Copy, PartialEq, Eq)]
pub enum Action {
    /// The key goes to the filter being typed.
    EditFilter(Key),
    Nothing,
    ClearFilter,
    Quit,
    OpenFilter,
    ToggleFocus,
    /// Move the selection by this many rows.
    Nav(isize),
    /// Jump to this row (`isize::MAX`: the last).
    NavTo(isize),
    /// `None` toggles the selected subtree, `Some(true)` folds it,
    /// `Some(false)` unfolds it.
    Fold(Option<bool>),
    Rescan,
    /// Copy the selection: `true` the full details, `false` the ids.
    Yank(bool),
}

/// The action of a key outside the filter box. `menu_was_open`: a copy menu
/// was open (the key closes it, and Esc does nothing else); `filtering`: a
/// filter is applied (Esc drops it).
pub open spec fn command_of(key: Key, menu_was_open: bool, filtering: bool) -> Action {
    match key {
        Key::Esc => if menu_was_open {
            Action::Nothing
        } else if filtering {
            Action::ClearFilter
        } else {
            Action::Quit
        },
        Key::Char('q') => Action::Quit,
        Key::Char('/') => Action::OpenFilter,
        Key::Tab | Key::BackTab => Action::ToggleFocus,
        Key::Down | Key::Char('j') => Action::Nav(1),
        Key::Up | Key::Char('k') => Action::Nav(-1isize),
        Key::Char('g') | Key::Home => Action::NavTo(0),
        Key::Char('G') | Key::End => Action::NavTo(isize::MAX),
        Key::Enter | Key::Char(' ') => Action::Fold(None),
        Key::Left | Key::Char('h') => Action::Fold(Some(true)),
        Key::Right | Key::Char('l') => Action::Fold(Some(false)),
        Key::Char('r') => Action::Rescan,
        Key::Char('y') => Action::Yank(false),
        Key::Char('Y') => Action::Yank(true),
        _ => Action::Nothing,
    }
}

/// What a key press does, and whether it closes an open copy menu. While
/// the filter is being typed every key goes to it and the menu stays; else
/// any key closes the menu and acts as its binding says.
pub fn key_action(key: Key, editing: bool, menu_open: bool, filtering: bool) -> (r: (Action, bool))
    ensures
        r == (if editing {
            (Action::EditFilter(key), false)
        } else {
            (command_of(key, menu_open, filtering), true)
        }),
{
    if editing {
        return (Action::EditFilter(key), false);
    }
    let a = match key {
        Key::Esc => if menu_open {
            Action::Nothing
        } else if filtering {
            Action::ClearFilter
        } else {
            Action::Quit
        },
        Key::Char(c) => match c {
            'q' => Action::Quit,
            '/' => Action::OpenFilter,
            'j' => Action::Nav(1),
            'k' => Action::Nav(-1),
            'g' => Action::NavTo(0),
            'G' => Action::NavTo(isize::MAX),
            ' ' => Action::Fold(None),
            'h' => Action::Fold(Some(true)),
            'l' => Action::Fold(Some(false)),
            'r' => Action::Rescan,
            'y' => Action::Yank(false),
            'Y' => Action::Yank(true),
            _ => Action::Nothing,
        },
        Key::Tab | Key::BackTab => Action::ToggleFocus,
        Key::Down => Action::Nav(1),
        Key::Up => Action::Nav(-1),
        Key::Home => Action::NavTo(0),
        Key::End => Action::NavTo(isize::MAX),
        Key::Enter => Action::Fold(None),
        Key::Left => Action::Fold(Some(true)),
        Key::Right => Action::Fold(Some(false)),
        _ => Action::Nothing,
    };
    (a, true)
}

// ---------------------------------------------------------------------------
// The filter box

/// Live tree filter (opened with `/`). `editing`: keystrokes go to `query`;
/// once committed (Enter) the filter stays applied while you navigate.
pub struct Filter {
    pub query: String,
    pub editing: bool,
}

/// The abstract value of an optional filter: its query and whether it is
/// being typed.
pub open spec fn filter_view(f: Option<Filter>) -> Option<(Seq<char>, bool)> {
    match f {
        Some(f) => Some((f.query@, f.editing)),
        None => None,
    }
}

/// What a key typed into the filter box leaves to do.
#[derive(Debug, Clone, Copy, PartialEq, Eq)]
pub enum FilterEffect {
    /// Move the selection through the live results.
    Nav(isize),
    /// The rows must be recomputed.
    Rebuild,
    /// The key is ignored.
    Ignore,
}

/// A key typed into the filter box: arrows browse the results, characters
/// and Backspace edit the query, Enter commits it (or drops an empty one),
/// Esc drops the filter.
pub open spec fn filter_key_of(f: Option<(Seq<char>, bool)>, key: Key) -> (Option<(Seq<char>, bool)>, FilterEffect) {
    match key {
        Key::Up => (f, FilterEffect::Nav(-1isize)),
        Key::Down => (f, FilterEffect::Nav(1)),
        Key::Char(c) => (
            match f {
                Some((q, e)) => Some((q.push(c), e)),
                None => None,
            },
            FilterEffect::Rebuild,
        ),
        Key::Backspace => (
            match f {
                Some((q, e)) => Some((
                    if q.len() > 0 {
                        q.drop_last()
                    } else {
                        q
                    },
                    e,
                )),
                None => None,
            },
            FilterEffect::Rebuild,
        ),
        Key::Enter => (
            match f {
                Some((q, e)) => if q.len() == 0 {
                    None
                } else {
                    Some((q, false))
                },
                None => None,
            },
            FilterEffect::Rebuild,
        ),
        Key::Esc => (None, FilterEffect::Rebuild),
        _ => (f, FilterEffect::Ignore),
    }
}

/// Handle a keystroke while typing in the filter box.
pub fn filter_key(filter: Option<Filter>, key: Key) -> (r: (Option<Filter>, FilterEffect))
    ensures
        (filter_view(r.0), r.1) == filter_key_of(filter_view(filter), key),
{
    match key {
        Key::Up => (filter, FilterEffect::Nav(-1)),
        Key::Down => (filter, FilterEffect::Nav(1)),
        Key::Char(c) => match filter {
            Some(f) => {
                let mut q = f.query;
                q.push(c);
                (Some(Filter { query: q, editing: f.editing }), FilterEffect::Rebuild)
            },
            None => (None, FilterEffect::Rebuild),
        },
        Key::Backspace => match filter {
            Some(f) => {
                let cs = chars_of(f.query.as_str());
                let q = if cs.len() > 0 {
                    let keep = slice_prefix(cs.as_slice(), cs.len() - 1);
                    string_of(keep.as_slice())
                } else {
                    f.query
                };
                proof {
                    if cs.len() > 0 {
                        assert(cs@.subrange(0, cs.len() - 1) =~= cs@.drop_last());
                    }
                }
                (Some(Filter { query: q, editing: f.editing }), FilterEffect::Rebuild)
            },
            None => (None, FilterEffect::Rebuild),
        },
        Key::Enter => match filter {
            Some(f) => {
                if f.query.as_str().is_empty() {
                    (None, FilterEffect::Rebuild)
                } else {
                    (Some(Filter { query: f.query, editing: false }), FilterEffect::Rebuild)
                }
            },
            None => (None, FilterEffect::Rebuild),
        },
        Key::Esc => (None, FilterEffect::Rebuild),
        _ => (filter, FilterEffect::Ignore),
    }
}

fn slice_prefix(cs: &[char], n: usize) -> (r: Vec<char>)
    requires
        n <= cs.len(),
    ensures
        r@ == cs@.subrange(0, n as int),
{
    crate::text::slice_of(cs, 0, n)
}

/// The filter box opened (or re-opened) for typing, keeping any query.
pub fn opened_filter(filter: Option<Filter>) -> (f: Filter)
    ensures
        f.editing,
        f.query@ == (match filter {
            Some(g) => g.query@,
            None => Seq::<char>::empty(),
        }),
{
    match filter {
        Some(g) => Filter { query: g.query, editing: true },
        None => Filter { query: String::new(), editing: true },
    }
}

// ---------------------------------------------------------------------------
// What a tree row shows besides its name

/// Sparkline width in tree rows.
pub const SPARK_WIDTH: usize = 10;

/// Width of the rate column.
pub const RATE_W: usize = 9;

/// One of the last [`SPARK_WIDTH`] samples of a history is above 0.
pub open spec fn recent_traffic(h: Seq<u64>) -> bool {
    exists|i: int| h.len() - SPARK_WIDTH <= i < h.len() && 0 <= i && h[i] > 0
}

/// Whether a device with history `h` shows traffic in its row.
pub fn has_traffic(h: &[u64]) -> (b: bool)
    ensures
        b == recent_traffic(h@),
{
    let n = h.len();
    let from = if n > SPARK_WIDTH {
        n - SPARK_WIDTH
    } else {
        0
    };
    let mut i = from;
    while i < n
        invariant
            from <= i <= n,
            n == h.len(),
            from as int == (if h.len() > SPARK_WIDTH { h.len() - SPARK_WIDTH } else { 0 }),
            forall|j: int| from <= j < i ==> h@[j] == 0,
        decreases n - i,
    {
        if h[i] > 0 {
            return true;
        }
        i = i + 1;
    }
    false
}

/// How the rate column of a row is drawn.
#[derive(Debug, Clone, Copy, PartialEq, Eq)]
pub enum RateCell {
    /// The current rate, right-aligned in [`RATE_W`] columns.
    Rate,
    /// Too tight for the number: a single activity tick.
    Tick,
    Hidden,
}

/// The right-hand block of a row with `room` free columns: the sparkline is
/// decoration, dropped when it does not fit beside the rate; the rate shows
/// when it fits, else a tick marks traffic.
pub open spec fn tail_of(room: usize, traffic: bool) -> (bool, RateCell) {
    (
        traffic && room >= SPARK_WIDTH + 1 + RATE_W + 2,
        if room >= RATE_W + 2 {
            RateCell::Rate
        } else if traffic {
            RateCell::Tick
        } else {
            RateCell::Hidden
        },
    )
}

/// Lays out the right-hand block of a row: whether the sparkline shows, and
/// the rate column.
pub fn tail_layout(room: usize, traffic: bool) -> (r: (bool, RateCell))
    ensures
        r == tail_of(room, traffic),
{
    let spark = traffic && room >= SPARK_WIDTH + 1 + RATE_W + 2;
    let rate = if room >= RATE_W + 2 {
        RateCell::Rate
    } else if traffic {
        RateCell::Tick
    } else {
        RateCell::Hidden
    };
    (spark, rate)
}

/// The padding before the right-hand block: what is left of `inner`
/// columns, at least 2.
pub fn tail_pad(inner: usize, left: usize, right: usize) -> (pad: usize)
    requires
        left + right <= usize::MAX,
    ensures
        pad == (if inner >= left + right + 2 {
            inner - left - right
        } else {
            2
        }),
{
    let free = inner.saturating_sub(left + right);
    if free > 2 {
        free
    } else {
        2
    }
}

/// The number of the first `n` rows whose device matches `q`.
pub open spec fn count_matches(rows: Seq<(usize, usize)>, ds: Seq<DeviceView>, q: Seq<char>, db: &NameDb, n: int) -> nat
    decreases n,
{
    if n <= 0 {
        0
    } else {
        count_matches(rows, ds, q, db, n - 1) + if matches_query(ds[rows[n - 1].1 as int], q, db) {
            1nat
        } else {
            0nat
        }
    }
}

/// How many shown rows match the filter query (lower-cased first), as the
/// filter box counts them.
pub fn match_count(rows: &[(usize, usize)], devices: &[Device], query: &str, names: &NameDb) -> (n: usize)
    requires
        forall|r: int| 0 <= r < rows.len() ==> (#[trigger] rows@[r]).1 < devices.len(),
    ensures
        n == count_matches(rows@, crate::usb::device_views(devices@), lowercase(query@), names, rows.len() as int),
{
    let ghost ds = crate::usb::device_views(devices@);
    let q = crate::rows::lowercase_of(query);
    let mut n: usize = 0;
    let mut i: usize = 0;
    while i < rows.len()
        invariant
            i <= rows.len(),
            n <= i,
            ds == crate::usb::device_views(devices@),
            q@ == lowercase(query@),
            forall|r: int| 0 <= r < rows.len() ==> (#[trigger] rows@[r]).1 < devices.len(),
            n == count_matches(rows@, ds, q@, names, i as int),
        decreases rows.len() - i,
    {
        assert(ds[rows@[i as int].1 as int] == devices@[rows@[i as int].1 as int]@);
        if device_matches(&devices[rows[i].1], q.as_str(), names) {
            n = n + 1;
        }
        i = i + 1;
    }
    n
}

/// The number of root hubs among the first `n` devices.
pub open spec fn count_roots(ds: Seq<DeviceView>, n: int) -> nat
    decreases n,
{
    if n <= 0 {
        0
    } else {
        count_roots(ds, n - 1) + if is_root_name(ds[n - 1].name) {
            1nat
        } else {
            0nat
        }
    }
}

/// The number of buses, as the header counts them: the root hubs.
pub fn bus_count(devices: &[Device]) -> (n: usize)
    ensures
        n == count_roots(crate::usb::device_views(devices@), devices.len() as int),
{
    let ghost ds = crate::usb::device_views(devices@);
    let mut n: usize = 0;
    let mut i: usize = 0;
    while i < devices.len()
        invariant
            i <= devices.len(),
            n <= i,
            ds == crate::usb::device_views(devices@),
            n == count_roots(ds, i as int),
        decreases devices.len() - i,
    {
        assert(ds[i as int] == devices@[i as int]@);
        if devices[i].is_root_hub() {
            n = n + 1;
        }
        i = i + 1;
    }
    n
}

/// One hue per device class, so color carries meaning across the whole UI.
#[derive(Debug, Clone, Copy, PartialEq, Eq)]
pub enum Hue {
    Teal,
    Green,
    Blue,
    Mauve,
    Peach,
    Yellow,
    Sky,
    Text,
}

/// The hue of a class: audio teal, communication and wireless green, HID
/// blue, imaging and video mauve, printers peach, storage yellow, hubs sky.
pub open spec fn hue_of(class: u8) -> Hue {
    if class == 0x01 {
        Hue::Teal
    } else if class == 0x02 || class == 0x0a || class == 0xe0 {
        Hue::Green
    } else if class == 0x03 {
        Hue::Blue
    } else if class == 0x06 || class == 0x0e || class == 0x10 {
        Hue::Mauve
    } else if class == 0x07 {
        Hue::Peach
    } else if class == 0x08 {
        Hue::Yellow
    } else if class == 0x09 {
        Hue::Sky
    } else {
        Hue::Text
    }
}

pub fn class_hue(class: u8) -> (h: Hue)
    ensures
        h == hue_of(class),
{
    match class {
        0x01 => Hue::Teal,
        0x02 | 0x0a | 0xe0 => Hue::Green,
        0x03 => Hue::Blue,
        0x06 | 0x0e | 0x10 => Hue::Mauve,
        0x07 => Hue::Peach,
        0x08 => Hue::Yellow,
        0x09 => Hue::Sky,
        _ => Hue::Text,
    }
}

} // verus!
