//! The picker's state machine: the host list with its search and filters,
//! and what each key press does to it. Work that touches the terminal, the
//! state file or tmux is handed back to the caller as a `Step`.

use vstd::prelude::*;
use crate::text;
use crate::sshconfig::{Host, AddHostInput, AddHostInputView, strings_view};
use crate::state::{Store, StoreView};
use crate::state;
use crate::search::{Candidate, CandidateView, MatchSortKey};
use crate::search;

verus! {

// ---------------------------------------------------------------- keys and replies

/// A key, as the picker tells keys apart.
#[derive(Debug, Clone, Copy, PartialEq, Eq, Structural)]
pub enum Key {
    Char(char),
    Esc,
    Enter,
    Up,
    Down,
    Tab,
    BackTab,
    Backspace,
    Other,
}

/// The modifiers held with a key: none, exactly Control, or anything else.
#[derive(Debug, Clone, Copy, PartialEq, Eq, Structural)]
pub enum Mods {
    Plain,
    Control,
    Other,
}

/// A key press.
#[derive(Debug, Clone, Copy, PartialEq, Eq, Structural)]
pub struct KeyPress {
    pub code: Key,
    pub mods: Mods,
}

/// The tmux action that opens a pane for each target.
#[derive(Debug, Clone, Copy, PartialEq, Eq, Structural)]
pub enum PaneAction {
    NewWindow,
    SplitVertical,
    SplitHorizontal,
}

/// What the front end is asked to do after a key press.
#[derive(Debug)]
#[allow(inconsistent_fields)]
pub enum Reply {
    /// Keep running the picker.
    Continue,
    /// Leave the picker.
    Quit,
    /// Leave the picker and connect to `alias` in the current pane.
    Connect { alias: String, user: String },
    /// Leave the picker and open `alias` in the origin pane, the pane that
    /// started the picker (the current pane when that is not known).
    Origin { alias: String },
    /// Open one pane per target with `action`, then leave the picker.
    Launch { action: PaneAction, targets: Vec<String> },
    /// Open the targets in one tiled window, then leave the picker.
    Tiled { targets: Vec<String> },
    /// Append a host to the ssh config, then report back with `host_added`.
    AddHost { input: AddHostInput },
    /// Leave the picker and run the credential command; `pause` asks to wait
    /// for Enter after it succeeds.
    Credential { action: String, host: String, user: String, kind: String, pause: bool },
}

/// The outcome of a key press: whether to save the store first, and the reply.
#[derive(Debug)]
pub struct Step {
    pub save_state: bool,
    pub reply: Reply,
}

#[allow(inconsistent_fields)]
pub enum ReplyView {
    Continue,
    Quit,
    Connect { alias: Seq<char>, user: Seq<char> },
    Origin { alias: Seq<char> },
    Launch { action: PaneAction, targets: Seq<Seq<char>> },
    Tiled { targets: Seq<Seq<char>> },
    AddHost { input: AddHostInputView },
    Credential {
        action: Seq<char>,
        host: Seq<char>,
        user: Seq<char>,
        kind: Seq<char>,
        pause: bool,
    },
}

pub struct StepView {
    pub save_state: bool,
    pub reply: ReplyView,
}

impl View for Reply {
    type V = ReplyView;

    open spec fn view(&self) -> ReplyView {
        match self {
            Reply::Continue => ReplyView::Continue,
            Reply::Quit => ReplyView::Quit,
            Reply::Connect { alias, user } => ReplyView::Connect { alias: alias@, user: user@ },
            Reply::Origin { alias } => ReplyView::Origin { alias: alias@ },
            Reply::Launch { action, targets } => ReplyView::Launch {
                action: *action,
                targets: strings_view(targets@),
            },
            Reply::Tiled { targets } => ReplyView::Tiled { targets: strings_view(targets@) },
            Reply::AddHost { input } => ReplyView::AddHost { input: input@ },
            Reply::Credential { action, host, user, kind, pause } => ReplyView::Credential {
                action: action@,
                host: host@,
                user: user@,
                kind: kind@,
                pause: *pause,
            },
        }
    }
}

impl View for Step {
    type V = StepView;

    open spec fn view(&self) -> StepView {
        StepView { save_state: self.save_state, reply: self.reply@ }
    }
}

pub open spec fn cont(save: bool) -> StepView {
    StepView { save_state: save, reply: ReplyView::Continue }
}

pub open spec fn quit() -> StepView {
    StepView { save_state: false, reply: ReplyView::Quit }
}

// ---------------------------------------------------------------- state

/// The add-host form.
#[derive(Debug)]
pub struct AddHostModal {
    pub field: usize,
    pub alias: String,
    pub hostname: String,
    pub user: String,
    pub port: String,
    pub proxyjump: String,
    pub identity_file: String,
    pub status: String,
}

/// The credential form.
#[derive(Debug)]
pub struct CredentialModal {
    pub action: String,
    pub host: String,
    pub field: usize,
    pub user: String,
    pub kind: String,
    pub status: String,
}

pub struct AddModalView {
    pub field: usize,
    pub alias: Seq<char>,
    pub hostname: Seq<char>,
    pub user: Seq<char>,
    pub port: Seq<char>,
    pub proxyjump: Seq<char>,
    pub identity_file: Seq<char>,
    pub status: Seq<char>,
}

pub struct CredModalView {
    pub action: Seq<char>,
    pub host: Seq<char>,
    pub field: usize,
    pub user: Seq<char>,
    pub kind: Seq<char>,
    pub status: Seq<char>,
}

impl View for AddHostModal {
    type V = AddModalView;

    open spec fn view(&self) -> AddModalView {
        AddModalView {
            field: self.field,
            alias: self.alias@,
            hostname: self.hostname@,
            user: self.user@,
            port: self.port@,
            proxyjump: self.proxyjump@,
            identity_file: self.identity_file@,
            status: self.status@,
        }
    }
}

impl View for CredentialModal {
    type V = CredModalView;

    open spec fn view(&self) -> CredModalView {
        CredModalView {
            action: self.action@,
            host: self.host@,
            field: self.field,
            user: self.user@,
            kind: self.kind@,
            status: self.status@,
        }
    }
}

pub open spec fn empty_add_modal() -> AddModalView {
    AddModalView {
        field: 0,
        alias: Seq::empty(),
        hostname: Seq::empty(),
        user: Seq::empty(),
        port: Seq::empty(),
        proxyjump: Seq::empty(),
        identity_file: Seq::empty(),
        status: Seq::empty(),
    }
}

impl AddHostModal {
    pub fn new() -> (r: AddHostModal)
        ensures
            r@ == empty_add_modal(),
    {
        AddHostModal {
            field: 0,
            alias: String::new(),
            hostname: String::new(),
            user: String::new(),
            port: String::new(),
            proxyjump: String::new(),
            identity_file: String::new(),
            status: String::new(),
        }
    }
}

/// The picker.
#[derive(Debug)]
pub struct Picker {
    pub hosts: Vec<Host>,
    pub candidates: Vec<Candidate>,
    pub store: Store,
    pub implicit_select: bool,
    pub enter_mode: String,
    pub in_tmux: bool,
    pub search: String,
    pub last_query: String,
    pub search_focused: bool,
    /// Indices into `candidates` of the listed hosts, in list order.
    pub filtered: Vec<usize>,
    pub selected: usize,
    pub scroll: usize,
    /// The marked aliases, each once, in the order they were marked.
    pub selected_aliases: Vec<String>,
    pub filter_favorites: bool,
    pub filter_recents: bool,
    pub status: String,
    pub pending_g: bool,
    pub show_add: bool,
    pub show_cred: bool,
    pub add: AddHostModal,
    pub cred: CredentialModal,
}

pub struct PickerView {
    pub hosts: Seq<crate::sshconfig::HostView>,
    pub candidates: Seq<CandidateView>,
    pub store: StoreView,
    pub implicit_select: bool,
    pub enter_mode: Seq<char>,
    pub in_tmux: bool,
    pub search: Seq<char>,
    pub last_query: Seq<char>,
    pub search_focused: bool,
    pub filtered: Seq<usize>,
    pub selected: usize,
    pub scroll: usize,
    pub selected_aliases: Seq<Seq<char>>,
    pub filter_favorites: bool,
    pub filter_recents: bool,
    pub status: Seq<char>,
    pub pending_g: bool,
    pub show_add: bool,
    pub show_cred: bool,
    pub add: AddModalView,
    pub cred: CredModalView,
}

impl View for Picker {
    type V = PickerView;

    open spec fn view(&self) -> PickerView {
        PickerView {
            hosts: self.hosts@.map_values(|h: Host| h@),
            candidates: self.candidates@.map_values(|c: Candidate| c@),
            store: self.store@,
            implicit_select: self.implicit_select,
            enter_mode: self.enter_mode@,
            in_tmux: self.in_tmux,
            search: self.search@,
            last_query: self.last_query@,
            search_focused: self.search_focused,
            filtered: self.filtered@,
            selected: self.selected,
            scroll: self.scroll,
            selected_aliases: strings_view(self.selected_aliases@),
            filter_favorites: self.filter_favorites,
            filter_recents: self.filter_recents,
            status: self.status@,
            pending_g: self.pending_g,
            show_add: self.show_add,
            show_cred: self.show_cred,
            add: self.add@,
            cred: self.cred@,
        }
    }
}

// ---------------------------------------------------------------- the list

/// The lowercase, trimmed search text.
pub open spec fn query_of(v: PickerView) -> Seq<char> {
    text::lowercase(text::trim(v.search))
}

/// Whether the favorites and recents filters let candidate `c` through.
pub open spec fn allowed(v: PickerView, c: CandidateView) -> bool {
    &&& (v.filter_favorites ==> v.store.favorites.contains(text::trim(c.host.alias)))
    &&& (v.filter_recents ==> v.store.recents.contains(c.host.alias))
}

/// The match key of candidate `i` for query `q`.
#[verifier::opaque]
pub open spec fn cand_key(v: PickerView, q: Seq<char>, i: int) -> Option<MatchSortKey> {
    search::match_key(q, v.candidates[i])
}

/// Whether candidate `i` is listed for query `q`.
pub open spec fn included(v: PickerView, q: Seq<char>, i: int) -> bool {
    &&& 0 <= i < v.candidates.len()
    &&& allowed(v, v.candidates[i])
    &&& (q.len() > 0 ==> cand_key(v, q, i) is Some)
}

/// Whether candidate `i` is listed before candidate `j` for query `q`: in
/// config order for an empty query, else by match key, ties in config order.
pub open spec fn ranks_before(v: PickerView, q: Seq<char>, i: int, j: int) -> bool {
    if q.len() == 0 {
        i < j
    } else {
        let a = cand_key(v, q, i)->0;
        let b = cand_key(v, q, j)->0;
        search::key_lt(a, b) || (a == b && i < j)
    }
}

/// Whether `f` lists exactly the candidates listed for `q`, in rank order.
pub open spec fn filter_ok(v: PickerView, q: Seq<char>, f: Seq<usize>) -> bool {
    &&& forall|k: int| 0 <= k < f.len() ==> included(v, q, #[trigger] f[k] as int)
    &&& forall|i: int| included(v, q, i) ==> #[trigger] f.contains(i as usize)
    &&& forall|k1: int, k2: int|
        0 <= k1 < k2 < f.len() ==> ranks_before(v, q, #[trigger] f[k1] as int, #[trigger] f[k2] as int)
}

/// The list for query `q` (there is exactly one; see `lemma_filter_unique`).
pub open spec fn filtered_for(v: PickerView, q: Seq<char>) -> Seq<usize> {
    choose|f: Seq<usize>| filter_ok(v, q, f)
}

/// The scroll offset that keeps row `sel` within a window of 12 rows.
pub open spec fn visible_scroll(sel: usize, scroll: usize) -> usize {
    if sel < scroll {
        sel
    } else if sel - scroll >= 12 {
        (sel - 11) as usize
    } else {
        scroll
    }
}

/// `sel` moved onto the list of length `len` (0 for an empty list).
pub open spec fn clamp_selected(sel: usize, len: nat) -> usize {
    if sel >= len {
        if len == 0 {
            0
        } else {
            (len - 1) as usize
        }
    } else {
        sel
    }
}

/// The picker with its list rebuilt for the current search and filters; the
/// selection goes back to the top when the query changed.
pub open spec fn recomputed(v: PickerView) -> PickerView {
    let q = query_of(v);
    let changed = q != v.last_query;
    let sel0: usize = if changed {
        0
    } else {
        v.selected
    };
    let scroll0: usize = if changed {
        0
    } else {
        v.scroll
    };
    let f = filtered_for(v, q);
    let sel = clamp_selected(sel0, f.len());
    PickerView { last_query: q, filtered: f, selected: sel, scroll: visible_scroll(sel, scroll0), ..v }
}

/// The selection moved one row up or down, staying on the list.
pub open spec fn moved(v: PickerView, up: bool) -> PickerView {
    if v.filtered.len() == 0 {
        v
    } else {
        let max: int = v.filtered.len() - 1;
        let next: int = if up {
            v.selected - 1
        } else {
            v.selected + 1
        };
        let n: int = if next < 0 {
            0
        } else if next > max {
            max
        } else {
            next
        };
        PickerView { selected: n as usize, scroll: visible_scroll(n as usize, v.scroll), ..v }
    }
}

/// The alias of candidate `i` (empty when there is no such candidate).
pub open spec fn alias_at(v: PickerView, i: usize) -> Seq<char> {
    if i < v.candidates.len() {
        v.candidates[i as int].host.alias
    } else {
        Seq::empty()
    }
}

/// The aliases of the listed hosts, in list order.
pub open spec fn filtered_aliases(v: PickerView) -> Seq<Seq<char>> {
    v.filtered.map_values(|i: usize| alias_at(v, i))
}

/// The alias and user of the host under the cursor.
pub open spec fn current(v: PickerView) -> Option<(Seq<char>, Seq<char>)> {
    if v.selected < v.filtered.len() && v.filtered[v.selected as int] < v.candidates.len() {
        let c = v.candidates[v.filtered[v.selected as int] as int];
        Some((c.host.alias, c.host.user))
    } else {
        None
    }
}

/// The items of `s` that are in `set`, in order.
pub open spec fn keep_in(s: Seq<Seq<char>>, set: Seq<Seq<char>>) -> Seq<Seq<char>>
    decreases s.len(),
{
    if s.len() == 0 {
        s
    } else if set.contains(s.last()) {
        keep_in(s.drop_last(), set).push(s.last())
    } else {
        keep_in(s.drop_last(), set)
    }
}

/// The hosts an action applies to: the marked hosts in list order (or, when
/// none of them is listed, all marked hosts), else the host under the cursor.
pub open spec fn targets(v: PickerView) -> Seq<Seq<char>> {
    if v.selected_aliases.len() == 0 {
        match current(v) {
            Some((a, _)) => seq![a],
            None => Seq::empty(),
        }
    } else {
        let items = keep_in(filtered_aliases(v), v.selected_aliases);
        if items.len() == 0 {
            v.selected_aliases
        } else {
            items
        }
    }
}

/// `s` with each alias of `t` added, in order, unless already in it.
pub open spec fn insert_all(s: Seq<Seq<char>>, t: Seq<Seq<char>>) -> Seq<Seq<char>>
    decreases t.len(),
{
    if t.len() == 0 {
        s
    } else {
        let p = insert_all(s, t.drop_last());
        if p.contains(t.last()) {
            p
        } else {
            p.push(t.last())
        }
    }
}

/// `s` without the aliases of `t`.
pub open spec fn remove_all(s: Seq<Seq<char>>, t: Seq<Seq<char>>) -> Seq<Seq<char>>
    decreases t.len(),
{
    if t.len() == 0 {
        s
    } else {
        state::without(remove_all(s, t.drop_last()), t.last())
    }
}

/// The store after each of `t` was used, in order.
pub open spec fn with_recents(s: StoreView, t: Seq<Seq<char>>) -> StoreView
    decreases t.len(),
{
    if t.len() == 0 {
        s
    } else {
        state::with_recent(with_recents(s, t.drop_last()), t.last())
    }
}

/// Marking: when every listed host is marked, unmark them all; else mark
/// them all. The status shows how many are marked.
pub open spec fn toggled_all(v: PickerView) -> PickerView {
    if v.filtered.len() == 0 {
        v
    } else {
        let fa = filtered_aliases(v);
        let all = forall|k: int| 0 <= k < fa.len() ==> v.selected_aliases.contains(#[trigger] fa[k]);
        let s2 = if all {
            remove_all(v.selected_aliases, fa)
        } else {
            insert_all(v.selected_aliases, fa)
        };
        PickerView {
            selected_aliases: s2,
            status: "Selected: "@ + text::decimal(s2.len()),
            ..v
        }
    }
}

/// Marks or unmarks the host under the cursor.
pub open spec fn toggled_current(v: PickerView) -> PickerView {
    match current(v) {
        None => v,
        Some((a, _)) => if v.selected_aliases.contains(a) {
            PickerView { selected_aliases: state::without(v.selected_aliases, a), ..v }
        } else {
            PickerView { selected_aliases: v.selected_aliases.push(a), ..v }
        },
    }
}

// ---------------------------------------------------------------- actions

/// The pane action that Enter uses for marked hosts.
pub open spec fn marked_action(mode: Seq<char>) -> PaneAction {
    if mode == "v"@ {
        PaneAction::SplitVertical
    } else if mode == "s"@ {
        PaneAction::SplitHorizontal
    } else {
        PaneAction::NewWindow
    }
}

/// Opening a pane per target: every target becomes a recent; outside tmux
/// the picker stays and says why.
pub open spec fn run_multi(v: PickerView, action: PaneAction) -> (PickerView, StepView) {
    let t = targets(v);
    if t.len() == 0 {
        (v, cont(false))
    } else {
        let v1 = PickerView { store: with_recents(v.store, t), ..v };
        if !v.in_tmux {
            (
                PickerView { status: "tmux actions require running inside tmux"@, ..v1 },
                cont(true),
            )
        } else {
            (v1, StepView { save_state: true, reply: ReplyView::Launch { action, targets: t } })
        }
    }
}

/// Opening the targets in a tiled window (a single target gets a window).
pub open spec fn run_tiled(v: PickerView) -> (PickerView, StepView) {
    let t = targets(v);
    if t.len() == 0 {
        (v, cont(false))
    } else {
        let v1 = PickerView { store: with_recents(v.store, t), ..v };
        if t.len() == 1 {
            run_multi(v1, PaneAction::NewWindow)
        } else if !v.in_tmux {
            (
                PickerView { status: "tiled layout requires running inside tmux"@, ..v1 },
                cont(true),
            )
        } else {
            (v1, StepView { save_state: true, reply: ReplyView::Tiled { targets: t } })
        }
    }
}

/// What Enter does in the list: marked hosts open per the enter mode (split
/// or window); else the host under the cursor becomes a recent and opens per
/// the enter mode: a window, a split, the origin pane for `o`, and otherwise
/// a connection in the current pane.
pub open spec fn enter_default(v: PickerView) -> (PickerView, StepView) {
    if v.selected_aliases.len() > 0 {
        run_multi(v, marked_action(v.enter_mode))
    } else {
        match current(v) {
            None => (v, cont(false)),
            Some((a, u)) => {
                let v1 = PickerView { store: state::with_recent(v.store, a), ..v };
                if v.enter_mode == "w"@ {
                    run_multi(v1, PaneAction::NewWindow)
                } else if v.enter_mode == "v"@ {
                    run_multi(v1, PaneAction::SplitVertical)
                } else if v.enter_mode == "s"@ {
                    run_multi(v1, PaneAction::SplitHorizontal)
                } else if v.enter_mode == "o"@ {
                    (v1, StepView { save_state: true, reply: ReplyView::Origin { alias: a } })
                } else {
                    (v1, StepView { save_state: true, reply: ReplyView::Connect { alias: a, user: u } })
                }
            },
        }
    }
}

/// Opens the credential form for the host under the cursor.
pub open spec fn opened_cred(v: PickerView, action: Seq<char>) -> PickerView {
    match current(v) {
        None => v,
        Some((a, u)) => PickerView {
            show_cred: true,
            cred: CredModalView {
                action,
                host: a,
                field: 0,
                user: u,
                kind: "password"@,
                status: Seq::empty(),
            },
            ..v
        },
    }
}

/// `s` without its last character, as `String::pop` leaves it.
pub open spec fn popped(s: Seq<char>) -> Seq<char> {
    if s.len() == 0 {
        s
    } else {
        s.drop_last()
    }
}

/// `v` with the pending `g` cleared.
pub open spec fn no_g(v: PickerView) -> PickerView {
    PickerView { pending_g: false, ..v }
}

/// A key in the search box.
pub open spec fn search_step(v: PickerView, k: KeyPress) -> (PickerView, StepView) {
    if k.code == Key::Char('c') && k.mods == Mods::Control {
        (v, quit())
    } else if k.code == Key::Esc {
        (PickerView { search_focused: false, ..v }, cont(false))
    } else if k.code == Key::Up {
        (moved(v, true), cont(false))
    } else if k.code == Key::Down {
        (moved(v, false), cont(false))
    } else if k.code == Key::Enter {
        let v1 = recomputed(PickerView { search_focused: false, ..v });
        if v.implicit_select {
            enter_default(v1)
        } else {
            (v1, cont(false))
        }
    } else if k.code == Key::Char('a') && k.mods == Mods::Control {
        (toggled_all(v), cont(false))
    } else if k.code == Key::Backspace {
        (recomputed(PickerView { search: popped(v.search), ..v }), cont(false))
    } else if k.code is Char && k.mods == Mods::Plain {
        (recomputed(PickerView { search: v.search.push(k.code->Char_0), ..v }), cont(false))
    } else {
        (v, cont(false))
    }
}

/// A key in the list.
pub open spec fn normal_step(v: PickerView, k: KeyPress) -> (PickerView, StepView) {
    let c = k.code;
    if (c == Key::Char('c') && k.mods == Mods::Control) || c == Key::Char('q') || c == Key::Esc {
        (v, quit())
    } else if c == Key::Char('/') {
        (PickerView { search_focused: true, ..v }, cont(false))
    } else if c == Key::Up || c == Key::Char('k') {
        (no_g(moved(v, true)), cont(false))
    } else if c == Key::Down || c == Key::Char('j') {
        (no_g(moved(v, false)), cont(false))
    } else if c == Key::Char('g') {
        if v.pending_g {
            (PickerView { selected: 0, scroll: 0, pending_g: false, ..v }, cont(false))
        } else {
            (PickerView { pending_g: true, ..v }, cont(false))
        }
    } else if c == Key::Char('G') {
        if v.filtered.len() > 0 {
            let sel = (v.filtered.len() - 1) as usize;
            (
                PickerView { selected: sel, scroll: visible_scroll(sel, v.scroll), pending_g: false, ..v },
                cont(false),
            )
        } else {
            (no_g(v), cont(false))
        }
    } else if c == Key::Char(' ') {
        (no_g(toggled_current(v)), cont(false))
    } else if c == Key::Char('f') {
        match current(v) {
            None => (no_g(v), cont(false)),
            Some((a, _)) => {
                let (st, on) = state::toggled(v.store, a);
                let msg = if on {
                    "favorite added"@
                } else {
                    "favorite removed"@
                };
                (no_g(recomputed(PickerView { store: st, status: msg, ..v })), cont(true))
            },
        }
    } else if c == Key::Char('F') {
        let ff = !v.filter_favorites;
        let fr = if ff {
            false
        } else {
            v.filter_recents
        };
        (no_g(recomputed(PickerView { filter_favorites: ff, filter_recents: fr, ..v })), cont(false))
    } else if c == Key::Char('R') {
        let fr = !v.filter_recents;
        let ff = if fr {
            false
        } else {
            v.filter_favorites
        };
        (no_g(recomputed(PickerView { filter_favorites: ff, filter_recents: fr, ..v })), cont(false))
    } else if c == Key::Char('c') {
        (opened_cred(no_g(v), "set"@), cont(false))
    } else if c == Key::Char('d') {
        (opened_cred(no_g(v), "delete"@), cont(false))
    } else if c == Key::Char('a') && k.mods == Mods::Plain {
        (PickerView { show_add: true, add: empty_add_modal(), pending_g: false, ..v }, cont(false))
    } else if c == Key::Char('a') && k.mods == Mods::Control {
        (no_g(toggled_all(v)), cont(false))
    } else if c == Key::Enter {
        enter_default(no_g(v))
    } else if c == Key::Char('v') {
        run_multi(no_g(v), PaneAction::SplitVertical)
    } else if c == Key::Char('s') {
        run_multi(no_g(v), PaneAction::SplitHorizontal)
    } else if c == Key::Char('w') {
        run_multi(no_g(v), PaneAction::NewWindow)
    } else if c == Key::Char('t') {
        run_tiled(no_g(v))
    } else if c == Key::Char('p') {
        match current(v) {
            None => (no_g(v), cont(false)),
            Some((a, u)) => (
                no_g(PickerView { store: state::with_recent(v.store, a), ..v }),
                StepView { save_state: true, reply: ReplyView::Connect { alias: a, user: u } },
            ),
        }
    } else if c == Key::Char('o') {
        match current(v) {
            None => (no_g(v), cont(false)),
            Some((a, _)) => (
                no_g(PickerView { store: state::with_recent(v.store, a), ..v }),
                StepView { save_state: true, reply: ReplyView::Origin { alias: a } },
            ),
        }
    } else {
        (no_g(v), cont(false))
    }
}

/// The credential form's next field (the form has two).
pub open spec fn next_cred_field(f: usize) -> usize {
    ((f + 1) % 2) as usize
}

/// A key in the credential form: Enter runs the credential action with the
/// trimmed user and kind (an empty kind meaning a password).
pub open spec fn cred_step(v: PickerView, k: KeyPress) -> (PickerView, StepView) {
    let c = k.code;
    let m = v.cred;
    if c == Key::Esc {
        (PickerView { show_cred: false, ..v }, cont(false))
    } else if c == Key::Tab || c == Key::Down || c == Key::Char('j') || c == Key::BackTab || c
        == Key::Up || c == Key::Char('k') {
        (PickerView { cred: CredModalView { field: next_cred_field(m.field), ..m }, ..v }, cont(false))
    } else if c == Key::Enter {
        let user = text::trim(m.user);
        let kind = if text::trim(m.kind).len() == 0 {
            "password"@
        } else {
            text::trim(m.kind)
        };
        (
            PickerView { show_cred: false, ..v },
            StepView {
                save_state: false,
                reply: ReplyView::Credential {
                    action: m.action,
                    host: m.host,
                    user,
                    kind,
                    pause: m.action == "set"@,
                },
            },
        )
    } else if c == Key::Backspace {
        if m.field == 0 {
            (PickerView { cred: CredModalView { user: popped(m.user), ..m }, ..v }, cont(false))
        } else if m.field == 1 {
            (PickerView { cred: CredModalView { kind: popped(m.kind), ..m }, ..v }, cont(false))
        } else {
            (v, cont(false))
        }
    } else if c is Char && k.mods == Mods::Plain {
        let ch = c->Char_0;
        if m.field == 0 {
            (PickerView { cred: CredModalView { user: m.user.push(ch), ..m }, ..v }, cont(false))
        } else if m.field == 1 {
            (PickerView { cred: CredModalView { kind: m.kind.push(ch), ..m }, ..v }, cont(false))
        } else {
            (v, cont(false))
        }
    } else {
        (v, cont(false))
    }
}

/// The add-host form with field `f` changed by `g`.
pub open spec fn edit_add_field(a: AddModalView, g: spec_fn(Seq<char>) -> Seq<char>) -> AddModalView {
    if a.field == 0 {
        AddModalView { alias: g(a.alias), ..a }
    } else if a.field == 1 {
        AddModalView { hostname: g(a.hostname), ..a }
    } else if a.field == 2 {
        AddModalView { user: g(a.user), ..a }
    } else if a.field == 3 {
        AddModalView { port: g(a.port), ..a }
    } else if a.field == 4 {
        AddModalView { proxyjump: g(a.proxyjump), ..a }
    } else {
        AddModalView { identity_file: g(a.identity_file), ..a }
    }
}

/// The host the add-host form describes, its fields trimmed.
pub open spec fn form_input(a: AddModalView, port: i32) -> AddHostInputView {
    AddHostInputView {
        alias: text::trim(a.alias),
        hostname: text::trim(a.hostname),
        user: text::trim(a.user),
        port,
        proxyjump: text::trim(a.proxyjump),
        identity_file: text::trim(a.identity_file),
    }
}

/// A key in the add-host form: Enter asks to add the host, unless the port
/// is neither empty nor a positive integer.
pub open spec fn add_step(v: PickerView, k: KeyPress) -> (PickerView, StepView) {
    let c = k.code;
    let a = v.add;
    if c == Key::Esc {
        (PickerView { show_add: false, ..v }, cont(false))
    } else if c == Key::Tab || c == Key::Down || c == Key::Char('j') {
        (PickerView { add: AddModalView { field: ((a.field + 1) % 6) as usize, ..a }, ..v }, cont(false))
    } else if c == Key::BackTab || c == Key::Up || c == Key::Char('k') {
        (PickerView { add: AddModalView { field: ((a.field + 5) % 6) as usize, ..a }, ..v }, cont(false))
    } else if c == Key::Enter {
        let port_text = text::trim(a.port);
        let port = crate::sshconfig::port_of(a.port);
        if port_text.len() > 0 && port == 0 {
            (
                PickerView { add: AddModalView { status: "port must be a positive integer"@, ..a }, ..v },
                cont(false),
            )
        } else {
            (
                v,
                StepView {
                    save_state: false,
                    reply: ReplyView::AddHost { input: form_input(a, port as i32) },
                },
            )
        }
    } else if c == Key::Backspace {
        (PickerView { add: edit_add_field(a, |s: Seq<char>| popped(s)), ..v }, cont(false))
    } else if c is Char && k.mods == Mods::Plain {
        let ch = c->Char_0;
        (PickerView { add: edit_add_field(a, |s: Seq<char>| s.push(ch)), ..v }, cont(false))
    } else {
        (v, cont(false))
    }
}

/// What a key press does: the open form takes it, else the search box when
/// it has the focus, else the list.
pub open spec fn key_step(v: PickerView, k: KeyPress) -> (PickerView, StepView) {
    if v.show_add {
        add_step(v, k)
    } else if v.show_cred {
        cred_step(v, k)
    } else if v.search_focused {
        search_step(v, k)
    } else {
        normal_step(v, k)
    }
}

// ---------------------------------------------------------------- proofs about the list

proof fn lemma_ranks_asym(v: PickerView, q: Seq<char>, i: int, j: int)
    ensures
        !(ranks_before(v, q, i, j) && ranks_before(v, q, j, i)),
        !ranks_before(v, q, i, i),
{
}

proof fn lemma_sorted_same_elements(v: PickerView, q: Seq<char>, f1: Seq<usize>, f2: Seq<usize>)
    requires
        forall|k1: int, k2: int|
            0 <= k1 < k2 < f1.len() ==> ranks_before(v, q, #[trigger] f1[k1] as int, #[trigger] f1[k2] as int),
        forall|k1: int, k2: int|
            0 <= k1 < k2 < f2.len() ==> ranks_before(v, q, #[trigger] f2[k1] as int, #[trigger] f2[k2] as int),
        forall|x: usize| f1.contains(x) <==> f2.contains(x),
    ensures
        f1 == f2,
    decreases f1.len(),
{
    if f1.len() == 0 {
        if f2.len() > 0 {
            assert(f2.contains(f2[0]));
        }
        assert(f1 =~= f2);
    } else {
        assert(f1.contains(f1[0]));
        assert(f2.len() > 0);
        assert(f2.contains(f2[0]));
        let x = f1[0];
        let y = f2[0];
        if x != y {
            let j = choose|j: int| 0 <= j < f2.len() && f2[j] == x;
            let i = choose|i: int| 0 <= i < f1.len() && f1[i] == y;
            assert(j > 0);
            assert(i > 0);
            assert(ranks_before(v, q, f2[0] as int, f2[j] as int));
            assert(ranks_before(v, q, f1[0] as int, f1[i] as int));
            lemma_ranks_asym(v, q, x as int, y as int);
        }
        let t1 = f1.drop_first();
        let t2 = f2.drop_first();
        assert forall|z: usize| t1.contains(z) <==> t2.contains(z) by {
            if t1.contains(z) {
                let k = choose|k: int| 0 <= k < t1.len() && t1[k] == z;
                assert(f1[k + 1] == z);
                assert(ranks_before(v, q, f1[0] as int, f1[k + 1] as int));
                lemma_ranks_asym(v, q, z as int, z as int);
                assert(f1.contains(z));
                let m = choose|m: int| 0 <= m < f2.len() && f2[m] == z;
                assert(m != 0);
                assert(t2[m - 1] == z);
            }
            if t2.contains(z) {
                let k = choose|k: int| 0 <= k < t2.len() && t2[k] == z;
                assert(f2[k + 1] == z);
                assert(ranks_before(v, q, f2[0] as int, f2[k + 1] as int));
                lemma_ranks_asym(v, q, z as int, z as int);
                assert(f2.contains(z));
                let m = choose|m: int| 0 <= m < f1.len() && f1[m] == z;
                assert(m != 0);
                assert(t1[m - 1] == z);
            }
        }
        assert forall|k1: int, k2: int| 0 <= k1 < k2 < t1.len() implies ranks_before(
            v,
            q,
            #[trigger] t1[k1] as int,
            #[trigger] t1[k2] as int,
        ) by {
            assert(t1[k1] == f1[k1 + 1] && t1[k2] == f1[k2 + 1]);
        }
        assert forall|k1: int, k2: int| 0 <= k1 < k2 < t2.len() implies ranks_before(
            v,
            q,
            #[trigger] t2[k1] as int,
            #[trigger] t2[k2] as int,
        ) by {
            assert(t2[k1] == f2[k1 + 1] && t2[k2] == f2[k2 + 1]);
        }
        lemma_sorted_same_elements(v, q, t1, t2);
        assert(f1 =~= f2) by {
            assert forall|k: int| 0 <= k < f1.len() implies f1[k] == f2[k] by {
                if k > 0 {
                    assert(f1[k] == t1[k - 1]);
                    assert(f2[k] == t2[k - 1]);
                }
            }
        }
    }
}

/// There is only one list for a query: two lists that both hold exactly the
/// listed candidates in rank order are the same list.
pub proof fn lemma_filter_unique(v: PickerView, q: Seq<char>, f1: Seq<usize>, f2: Seq<usize>)
    requires
        filter_ok(v, q, f1),
        filter_ok(v, q, f2),
    ensures
        f1 == f2,
{
    assert forall|x: usize| f1.contains(x) <==> f2.contains(x) by {
        if f1.contains(x) {
            let k = choose|k: int| 0 <= k < f1.len() && f1[k] == x;
            assert(included(v, q, f1[k] as int));
            assert(f2.contains(x as int as usize));
        }
        if f2.contains(x) {
            let k = choose|k: int| 0 <= k < f2.len() && f2[k] == x;
            assert(included(v, q, f2[k] as int));
            assert(f1.contains(x as int as usize));
        }
    }
    lemma_sorted_same_elements(v, q, f1, f2);
}

// ---------------------------------------------------------------- the cursor stays on the list

/// Whether the cursor is on the list: on a listed row, or at the top of an
/// empty list.
pub open spec fn cursor_ok(v: PickerView) -> bool {
    if v.filtered.len() == 0 {
        v.selected == 0
    } else {
        v.selected < v.filtered.len()
    }
}

/// Whether `w` keeps the list and the cursor of `v`.
pub open spec fn same_cursor(v: PickerView, w: PickerView) -> bool {
    w.filtered == v.filtered && w.selected == v.selected
}

proof fn lemma_recomputed_cursor(v: PickerView)
    ensures
        cursor_ok(recomputed(v)),
{
}

proof fn lemma_moved_cursor(v: PickerView, up: bool)
    requires
        cursor_ok(v),
    ensures
        cursor_ok(moved(v, up)),
{
}

proof fn lemma_run_multi_cursor(v: PickerView, action: PaneAction)
    ensures
        same_cursor(v, run_multi(v, action).0),
{
}

proof fn lemma_run_tiled_cursor(v: PickerView)
    ensures
        same_cursor(v, run_tiled(v).0),
{
    let t = targets(v);
    if t.len() == 1 {
        let v1 = PickerView { store: with_recents(v.store, t), ..v };
        lemma_run_multi_cursor(v1, PaneAction::NewWindow);
    }
}

proof fn lemma_enter_default_cursor(v: PickerView)
    ensures
        same_cursor(v, enter_default(v).0),
{
    if v.selected_aliases.len() > 0 {
        lemma_run_multi_cursor(v, marked_action(v.enter_mode));
    } else {
        match current(v) {
            None => {},
            Some((a, u)) => {
                let v1 = PickerView { store: state::with_recent(v.store, a), ..v };
                lemma_run_multi_cursor(v1, PaneAction::NewWindow);
                lemma_run_multi_cursor(v1, PaneAction::SplitVertical);
                lemma_run_multi_cursor(v1, PaneAction::SplitHorizontal);
            },
        }
    }
}

proof fn lemma_search_step_cursor(v: PickerView, k: KeyPress)
    requires
        cursor_ok(v),
    ensures
        cursor_ok(search_step(v, k).0),
{
    lemma_moved_cursor(v, true);
    lemma_moved_cursor(v, false);
    lemma_recomputed_cursor(PickerView { search: popped(v.search), ..v });
    if k.code is Char {
        lemma_recomputed_cursor(PickerView { search: v.search.push(k.code->Char_0), ..v });
    }
    let v1 = recomputed(PickerView { search_focused: false, ..v });
    lemma_recomputed_cursor(PickerView { search_focused: false, ..v });
    lemma_enter_default_cursor(v1);
}

#[verifier::rlimit(60)]
proof fn lemma_normal_step_cursor(v: PickerView, k: KeyPress)
    requires
        cursor_ok(v),
    ensures
        cursor_ok(normal_step(v, k).0),
{
    let c = k.code;
    if (c == Key::Char('c') && k.mods == Mods::Control) || c == Key::Char('q') || c == Key::Esc {
    } else if c == Key::Char('/') {
    } else if c == Key::Up || c == Key::Char('k') {
        lemma_moved_cursor(v, true);
    } else if c == Key::Down || c == Key::Char('j') {
        lemma_moved_cursor(v, false);
    } else if c == Key::Char('g') || c == Key::Char('G') || c == Key::Char(' ') {
    } else if c == Key::Char('f') {
        match current(v) {
            None => {},
            Some((a, _)) => {
                let (st, on) = state::toggled(v.store, a);
                let msg = if on {
                    "favorite added"@
                } else {
                    "favorite removed"@
                };
                lemma_recomputed_cursor(PickerView { store: st, status: msg, ..v });
            },
        }
    } else if c == Key::Char('F') {
        let ff = !v.filter_favorites;
        let fr = if ff {
            false
        } else {
            v.filter_recents
        };
        lemma_recomputed_cursor(PickerView { filter_favorites: ff, filter_recents: fr, ..v });
    } else if c == Key::Char('R') {
        let fr = !v.filter_recents;
        let ff = if fr {
            false
        } else {
            v.filter_favorites
        };
        lemma_recomputed_cursor(PickerView { filter_favorites: ff, filter_recents: fr, ..v });
    } else if c == Key::Char('c') || c == Key::Char('d') || c == Key::Char('a') {
    } else if c == Key::Enter {
        lemma_enter_default_cursor(no_g(v));
    } else if c == Key::Char('v') {
        lemma_run_multi_cursor(no_g(v), PaneAction::SplitVertical);
    } else if c == Key::Char('s') {
        lemma_run_multi_cursor(no_g(v), PaneAction::SplitHorizontal);
    } else if c == Key::Char('w') {
        lemma_run_multi_cursor(no_g(v), PaneAction::NewWindow);
    } else if c == Key::Char('t') {
        lemma_run_tiled_cursor(no_g(v));
    }
}

/// Whatever key is pressed, the cursor stays on the list: on a listed row, or
/// at the top when nothing is listed.
pub proof fn lemma_key_keeps_cursor(v: PickerView, k: KeyPress)
    requires
        cursor_ok(v),
    ensures
        cursor_ok(key_step(v, k).0),
{
    if v.show_add {
    } else if v.show_cred {
    } else if v.search_focused {
        lemma_search_step_cursor(v, k);
    } else {
        lemma_normal_step_cursor(v, k);
    }
}

/// In the search box, Esc and Enter both leave it. Esc does nothing else (the
/// picker keeps running); Enter without implicit select only rebuilds the
/// list; Enter with implicit select then does what Enter does in the list,
/// at once.
pub proof fn lemma_search_leave(v: PickerView, k: KeyPress)
    requires
        v.search_focused,
        !v.show_add,
        !v.show_cred,
        k.code == Key::Esc || k.code == Key::Enter,
    ensures
        !key_step(v, k).0.search_focused,
        k.code == Key::Esc ==> key_step(v, k) == (PickerView { search_focused: false, ..v }, cont(false)),
        k.code == Key::Enter && !v.implicit_select ==> key_step(v, k) == (
            recomputed(PickerView { search_focused: false, ..v }),
            cont(false),
        ),
        k.code == Key::Enter && v.implicit_select ==> key_step(v, k) == enter_default(
            recomputed(PickerView { search_focused: false, ..v }),
        ),
{
    let v1 = recomputed(PickerView { search_focused: false, ..v });
    lemma_enter_keeps_focus(v1);
}

/// In the list, `s` opens its targets in horizontal splits, `v` in vertical
/// splits and `w` in new windows, so no two of these keys give the same
/// action. Outside tmux none of them launches anything. Enter on marked
/// hosts follows the enter mode the same way: `s` horizontal, `v` vertical.
pub proof fn lemma_pane_keys(v: PickerView, k: KeyPress)
    requires
        !v.show_add,
        !v.show_cred,
        !v.search_focused,
    ensures
        v.in_tmux && targets(v).len() > 0 ==> {
            &&& k.code == Key::Char('s') ==> key_step(v, k).1.reply == (ReplyView::Launch {
                action: PaneAction::SplitHorizontal,
                targets: targets(v),
            })
            &&& k.code == Key::Char('v') ==> key_step(v, k).1.reply == (ReplyView::Launch {
                action: PaneAction::SplitVertical,
                targets: targets(v),
            })
            &&& k.code == Key::Char('w') ==> key_step(v, k).1.reply == (ReplyView::Launch {
                action: PaneAction::NewWindow,
                targets: targets(v),
            })
        },
        !v.in_tmux && (k.code == Key::Char('s') || k.code == Key::Char('v') || k.code == Key::Char('w')) ==> !(
        key_step(v, k).1.reply is Launch),
        v.in_tmux && v.selected_aliases.len() > 0 && k.code == Key::Enter ==> {
            &&& v.enter_mode == "s"@ ==> key_step(v, k).1.reply == (ReplyView::Launch {
                action: PaneAction::SplitHorizontal,
                targets: targets(v),
            })
            &&& v.enter_mode == "v"@ ==> key_step(v, k).1.reply == (ReplyView::Launch {
                action: PaneAction::SplitVertical,
                targets: targets(v),
            })
        },
{
    let w = no_g(v);
    assert(current(w) == current(v));
    assert(filtered_aliases(w) =~= filtered_aliases(v)) by {
        assert forall|i: int| 0 <= i < v.filtered.len() implies #[trigger] filtered_aliases(w)[i]
            == filtered_aliases(v)[i] by {
            assert(alias_at(w, v.filtered[i]) == alias_at(v, v.filtered[i]));
        }
    }
    assert(targets(w) == targets(v));
    reveal_strlit("s");
    reveal_strlit("v");
    assert("s"@[0] != "v"@[0]);
    if v.selected_aliases.len() > 0 {
        assert(targets(v).len() > 0);
    }
}

proof fn lemma_enter_keeps_focus(v: PickerView)
    ensures
        enter_default(v).0.search_focused == v.search_focused,
{
}

// ---------------------------------------------------------------- the list, executable

proof fn lemma_insert_index<A>(s: Seq<A>, pos: int, x: A, k: int)
    requires
        0 <= pos <= s.len(),
        0 <= k <= s.len(),
    ensures
        s.insert(pos, x).len() == s.len() + 1,
        s.insert(pos, x)[k] == if k < pos {
            s[k]
        } else if k == pos {
            x
        } else {
            s[k - 1]
        },
{
    s.insert_ensures(pos, x);
    if k > pos {
        assert(s.insert(pos, x)[(k - 1) + 1] == s[k - 1]);
    }
}


/// `out` lists, in rank order, the candidates below `i` listed for `q`, and
/// `keys` holds their match keys.
#[verifier::opaque]
pub open spec fn ranked_upto(v: PickerView, q: Seq<char>, out: Seq<usize>, keys: Seq<MatchSortKey>, i: int) -> bool {
    &&& out.len() == keys.len()
    &&& forall|k: int| 0 <= k < out.len() ==> (#[trigger] out[k]) < i && included(v, q, out[k] as int)
    &&& q.len() > 0 ==> forall|k: int|
        0 <= k < out.len() ==> cand_key(v, q, out[k] as int) == Some(#[trigger] keys[k])
    &&& forall|j: int| 0 <= j < i && included(v, q, j) ==> out.contains(j as usize)
    &&& forall|k1: int, k2: int|
        0 <= k1 < k2 < out.len() ==> ranks_before(v, q, #[trigger] out[k1] as int, #[trigger] out[k2] as int)
}

proof fn lemma_skip_ranked(v: PickerView, q: Seq<char>, out: Seq<usize>, keys: Seq<MatchSortKey>, i: int)
    requires
        ranked_upto(v, q, out, keys, i),
        !included(v, q, i),
    ensures
        ranked_upto(v, q, out, keys, i + 1),
{
    reveal(ranked_upto);
}

proof fn lemma_push_ranked(v: PickerView, q: Seq<char>, out: Seq<usize>, keys: Seq<MatchSortKey>, i: int)
    requires
        ranked_upto(v, q, out, keys, i),
        q.len() == 0,
        0 <= i < v.candidates.len(),
        i <= usize::MAX,
        allowed(v, v.candidates[i]),
    ensures
        ranked_upto(v, q, out.push(i as usize), keys.push(MatchSortKey { bucket: 0, position: 0, len: 0 }), i + 1),
{
    reveal(ranked_upto);
    let o2 = out.push(i as usize);
    assert forall|k1: int, k2: int| 0 <= k1 < k2 < o2.len() implies ranks_before(
        v,
        q,
        #[trigger] o2[k1] as int,
        #[trigger] o2[k2] as int,
    ) by {
        if k2 == o2.len() - 1 {
            assert(out[k1] < i);
        } else {
            assert(o2[k1] == out[k1] && o2[k2] == out[k2]);
        }
    }
    assert forall|j: int| 0 <= j < i + 1 && included(v, q, j) implies o2.contains(j as usize) by {
        if j == i {
            assert(o2[o2.len() - 1] == j as usize);
        } else {
            let k = choose|k: int| 0 <= k < out.len() && out[k] == j as usize;
            assert(o2[k] == j as usize);
        }
    }
}

/// Inserts candidate `i`, with match key `key`, after every listed candidate
/// whose key is not greater.
fn insert_ranked(
    out: &mut Vec<usize>,
    keys: &mut Vec<MatchSortKey>,
    i: usize,
    key: MatchSortKey,
    Ghost(v): Ghost<PickerView>,
    Ghost(q): Ghost<Seq<char>>,
)
    requires
        ranked_upto(v, q, old(out)@, old(keys)@, i as int),
        q.len() > 0,
        i < v.candidates.len(),
        allowed(v, v.candidates[i as int]),
        cand_key(v, q, i as int) == Some(key),
    ensures
        ranked_upto(v, q, final(out)@, final(keys)@, i + 1),
{
    proof {
        reveal(ranked_upto);
    }
    let ghost old_out = out@;
    let ghost old_keys = keys@;
    let mut pos: usize = 0;
    while pos < keys.len() && !search::key_less(&key, &keys[pos])
        invariant
            pos <= keys.len(),
            keys@ == old_keys,
            forall|m: int| 0 <= m < pos ==> !search::key_lt(key, #[trigger] keys@[m]),
        decreases keys.len() - pos,
    {
        pos += 1;
    }
    out.insert(pos, i);
    keys.insert(pos, key);
    proof {
        assert(included(v, q, i as int));
        assert forall|k: int| 0 <= k < out.len() implies (#[trigger] out@[k]) < i + 1 && included(
            v,
            q,
            out@[k] as int,
        ) by {
            lemma_insert_index(old_out, pos as int, i, k);
        }
        assert forall|k: int| 0 <= k < out.len() implies cand_key(
            v,
            q,
            out@[k] as int,
        ) == Some(#[trigger] keys@[k]) by {
            lemma_insert_index(old_out, pos as int, i, k);
            lemma_insert_index(old_keys, pos as int, key, k);
        }
        assert forall|j: int| 0 <= j < i + 1 && included(v, q, j) implies out@.contains(j as usize) by {
            if j == i {
                lemma_insert_index(old_out, pos as int, i, pos as int);
            } else {
                let k = choose|k: int| 0 <= k < old_out.len() && old_out[k] == j as usize;
                if k < pos {
                    lemma_insert_index(old_out, pos as int, i, k);
                } else {
                    lemma_insert_index(old_out, pos as int, i, k + 1);
                }
            }
        }
        assert forall|k1: int, k2: int| 0 <= k1 < k2 < out.len() implies ranks_before(
            v,
            q,
            #[trigger] out@[k1] as int,
            #[trigger] out@[k2] as int,
        ) by {
            lemma_insert_index(old_out, pos as int, i, k1);
            lemma_insert_index(old_out, pos as int, i, k2);
            lemma_insert_index(old_keys, pos as int, key, k1);
            lemma_insert_index(old_keys, pos as int, key, k2);
            if k2 < pos {
            } else if k1 > pos {
                assert(ranks_before(v, q, old_out[k1 - 1] as int, old_out[k2 - 1] as int));
            } else if k1 < pos && k2 > pos {
                assert(ranks_before(v, q, old_out[k1] as int, old_out[k2 - 1] as int));
            } else if k1 < pos && k2 == pos {
                assert(!search::key_lt(key, old_keys[k1]));
                assert(old_out[k1] < i);
            } else {
                assert(pos < old_keys.len());
                assert(search::key_lt(key, old_keys[pos as int]));
                if k2 - 1 > pos {
                    assert(ranks_before(v, q, old_out[pos as int] as int, old_out[k2 - 1] as int));
                }
            }
        }
    }
}

impl Picker {
    fn allowed_exec(&self, c: &Candidate) -> (r: bool)
        ensures
            r == allowed(self@, c@),
    {
        if self.filter_favorites && !self.store.is_favorite(c.host.alias.as_str()) {
            return false;
        }
        if self.filter_recents && !state::contains_string(&self.store.recents, c.host.alias.as_str()) {
            return false;
        }
        true
    }

    /// The list for query `q` (already trimmed and lowercased).
    pub fn compute_filtered(&self, q: &String) -> (f: Vec<usize>)
        ensures
            filter_ok(self@, q@, f@),
    {
        let ghost v = self@;
        let empty_q = q.as_str().is_empty();
        let mut out: Vec<usize> = Vec::new();
        let mut keys: Vec<MatchSortKey> = Vec::new();
        let n = self.candidates.len();
        let mut i: usize = 0;
        proof {
            reveal(ranked_upto);
        }
        while i < n
            invariant
                n == self.candidates.len(),
                v == self@,
                i <= n,
                empty_q == (q@.len() == 0),
                ranked_upto(v, q@, out@, keys@, i as int),
            decreases n - i,
        {
            let c = &self.candidates[i];
            assert(v.candidates[i as int] == c@);
            if self.allowed_exec(c) {
                if empty_q {
                    proof {
                        lemma_push_ranked(v, q@, out@, keys@, i as int);
                    }
                    out.push(i);
                    keys.push(MatchSortKey { bucket: 0, position: 0, len: 0 });
                } else {
                    match search::match_sort_key(q.as_str(), c) {
                        None => {
                            proof {
                                reveal(cand_key);
                                lemma_skip_ranked(v, q@, out@, keys@, i as int);
                            }
                        },
                        Some(key) => {
                            proof {
                                reveal(cand_key);
                            }
                            insert_ranked(&mut out, &mut keys, i, key, Ghost(v), Ghost(q@));
                        },
                    }
                }
            } else {
                proof {
                    lemma_skip_ranked(v, q@, out@, keys@, i as int);
                }
            }
            i += 1;
        }
        proof {
            reveal(ranked_upto);
        }
        out
    }

    /// Keeps the selected row within the 12-row window.
    fn ensure_visible(&mut self)
        ensures
            final(self)@ == (PickerView { scroll: visible_scroll(old(self).selected, old(self).scroll), ..old(self)@ }),
    {
        if self.selected < self.scroll {
            self.scroll = self.selected;
        } else if self.selected - self.scroll >= 12 {
            self.scroll = self.selected - 11;
        }
    }

    /// Rebuilds the list for the current search and filters.
    pub fn recompute(&mut self)
        ensures
            final(self)@ == recomputed(old(self)@),
    {
        let ghost v = self@;
        let q_trim = text::trim_str(self.search.as_str());
        let q = text::to_lowercase(q_trim.as_str());
        let f = self.compute_filtered(&q);
        if !text::str_eq(q.as_str(), self.last_query.as_str()) {
            self.selected = 0;
            self.scroll = 0;
            self.last_query = q.clone();
        }
        proof {
            lemma_filter_unique(v, q@, f@, filtered_for(v, q@));
        }
        self.filtered = f;
        if self.selected >= self.filtered.len() {
            self.selected = if self.filtered.len() == 0 {
                0
            } else {
                self.filtered.len() - 1
            };
        }
        self.ensure_visible();
        proof {
            assert(self@ =~= recomputed(v));
        }
    }
}

proof fn lemma_strings_view_push(v: Seq<String>, x: String)
    ensures
        strings_view(v.push(x)) == strings_view(v).push(x@),
{
    assert(strings_view(v.push(x)) =~= strings_view(v).push(x@));
}

impl Picker {
    /// Moves the selection one row up or down.
    pub fn move_sel(&mut self, up: bool)
        ensures
            final(self)@ == moved(old(self)@, up),
    {
        if self.filtered.len() == 0 {
            return;
        }
        let max = self.filtered.len() - 1;
        let next: usize = if up {
            if self.selected == 0 {
                0
            } else if self.selected - 1 > max {
                max
            } else {
                self.selected - 1
            }
        } else {
            if self.selected >= max {
                max
            } else {
                self.selected + 1
            }
        };
        self.selected = next;
        self.ensure_visible();
    }

    /// The alias of candidate `i`, empty when there is none.
    fn alias_at(&self, i: usize) -> (r: String)
        ensures
            r@ == alias_at(self@, i),
    {
        if i < self.candidates.len() {
            self.candidates[i].host.alias.clone()
        } else {
            String::new()
        }
    }

    /// The alias and user of the host under the cursor.
    pub fn current(&self) -> (r: Option<(String, String)>)
        ensures
            match r {
                None => current(self@) is None,
                Some((a, u)) => current(self@) == Some((a@, u@)),
            },
    {
        if self.selected < self.filtered.len() && self.filtered[self.selected] < self.candidates.len() {
            let c = &self.candidates[self.filtered[self.selected]];
            Some((c.host.alias.clone(), c.host.user.clone()))
        } else {
            None
        }
    }

    /// The aliases of the listed hosts.
    fn filtered_alias_list(&self) -> (r: Vec<String>)
        ensures
            strings_view(r@) == filtered_aliases(self@),
    {
        let mut out: Vec<String> = Vec::new();
        let mut k: usize = 0;
        while k < self.filtered.len()
            invariant
                k <= self.filtered.len(),
                strings_view(out@) == filtered_aliases(self@).take(k as int),
            decreases self.filtered.len() - k,
        {
            let a = self.alias_at(self.filtered[k]);
            proof {
                lemma_strings_view_push(out@, a);
                assert(filtered_aliases(self@).take(k + 1) =~= filtered_aliases(self@).take(k as int).push(a@));
            }
            out.push(a);
            k += 1;
        }
        assert(filtered_aliases(self@).take(k as int) =~= filtered_aliases(self@));
        out
    }

    /// The hosts an action applies to.
    pub fn targets(&self) -> (r: Vec<String>)
        ensures
            strings_view(r@) == targets(self@),
    {
        if self.selected_aliases.len() == 0 {
            match self.current() {
                Some((a, _)) => {
                    let mut r: Vec<String> = Vec::new();
                    r.push(a);
                    assert(strings_view(r@) =~= seq![r@[0]@]);
                    r
                },
                None => {
                    let r: Vec<String> = Vec::new();
                    assert(strings_view(r@) =~= Seq::<Seq<char>>::empty());
                    r
                },
            }
        } else {
            let fa = self.filtered_alias_list();
            let ghost fav = strings_view(fa@);
            let mut items: Vec<String> = Vec::new();
            let mut k: usize = 0;
            while k < fa.len()
                invariant
                    k <= fa.len(),
                    fav == strings_view(fa@),
                    strings_view(items@) == keep_in(fav.take(k as int), strings_view(self.selected_aliases@)),
                decreases fa.len() - k,
            {
                proof {
                    let t = fav.take(k + 1);
                    assert(t.drop_last() =~= fav.take(k as int));
                    assert(t.last() == fa@[k as int]@);
                }
                if state::contains_string(&self.selected_aliases, fa[k].as_str()) {
                    proof {
                        lemma_strings_view_push(items@, fa@[k as int]);
                    }
                    items.push(fa[k].clone());
                }
                k += 1;
            }
            assert(fav.take(fa.len() as int) =~= fav);
            if items.len() == 0 {
                crate::sshconfig::copy_strings(&self.selected_aliases)
            } else {
                items
            }
        }
    }

    /// Marks every listed host, or unmarks them all when all are marked.
    pub fn toggle_select_all_filtered(&mut self)
        ensures
            final(self)@ == toggled_all(old(self)@),
    {
        if self.filtered.len() == 0 {
            return;
        }
        let ghost v = self@;
        let fa = self.filtered_alias_list();
        let ghost fav = strings_view(fa@);
        let mut all = true;
        let mut k: usize = 0;
        while k < fa.len()
            invariant
                k <= fa.len(),
                fav == strings_view(fa@),
                all == forall|m: int| 0 <= m < k ==> v.selected_aliases.contains(#[trigger] fav[m]),
                v.selected_aliases == strings_view(self.selected_aliases@),
            decreases fa.len() - k,
        {
            if !state::contains_string(&self.selected_aliases, fa[k].as_str()) {
                all = false;
            }
            proof {
                assert(fav[k as int] == fa@[k as int]@);
            }
            k += 1;
        }
        let mut set = crate::sshconfig::copy_strings(&self.selected_aliases);
        let mut k: usize = 0;
        while k < fa.len()
            invariant
                k <= fa.len(),
                fav == strings_view(fa@),
                strings_view(set@) == if all {
                    remove_all(v.selected_aliases, fav.take(k as int))
                } else {
                    insert_all(v.selected_aliases, fav.take(k as int))
                },
            decreases fa.len() - k,
        {
            proof {
                let t = fav.take(k + 1);
                assert(t.drop_last() =~= fav.take(k as int));
                assert(t.last() == fa@[k as int]@);
            }
            if all {
                set = state::strings_without(&set, fa[k].as_str());
            } else if !state::contains_string(&set, fa[k].as_str()) {
                proof {
                    lemma_strings_view_push(set@, fa@[k as int]);
                }
                set.push(fa[k].clone());
            }
            k += 1;
        }
        assert(fav.take(fa.len() as int) =~= fav);
        let mut status = String::from_str("Selected: ");
        let n = text::decimal_string(set.len() as u64);
        text::push_str(&mut status, n.as_str());
        proof {
            assert(strings_view(set@).len() == set@.len());
        }
        self.selected_aliases = set;
        self.status = status;
        assert(self@ =~= toggled_all(v));
    }

    /// Marks or unmarks the host under the cursor.
    pub fn toggle_current(&mut self)
        ensures
            final(self)@ == toggled_current(old(self)@),
    {
        if let Some((a, _)) = self.current() {
            if state::contains_string(&self.selected_aliases, a.as_str()) {
                self.selected_aliases = state::strings_without(&self.selected_aliases, a.as_str());
            } else {
                proof {
                    lemma_strings_view_push(self.selected_aliases@, a);
                }
                self.selected_aliases.push(a);
            }
        }
    }

    /// Records each target as a recent.
    fn add_recents(&mut self, t: &Vec<String>)
        ensures
            final(self)@ == (PickerView { store: with_recents(old(self)@.store, strings_view(t@)), ..old(self)@ }),
    {
        let ghost v = self@;
        let mut k: usize = 0;
        while k < t.len()
            invariant
                k <= t.len(),
                self@ == (PickerView { store: with_recents(v.store, strings_view(t@).take(k as int)), ..v }),
            decreases t.len() - k,
        {
            proof {
                let s = strings_view(t@).take(k + 1);
                assert(s.drop_last() =~= strings_view(t@).take(k as int));
                assert(s.last() == t@[k as int]@);
            }
            self.store.add_recent(t[k].as_str());
            k += 1;
        }
        assert(strings_view(t@).take(t.len() as int) =~= strings_view(t@));
    }

    /// Opens a pane per target with `action`.
    pub fn run_multi(&mut self, action: PaneAction) -> (r: Step)
        ensures
            (final(self)@, r@) == run_multi(old(self)@, action),
    {
        let t = self.targets();
        if t.len() == 0 {
            return Step { save_state: false, reply: Reply::Continue };
        }
        self.add_recents(&t);
        if !self.in_tmux {
            self.status = String::from_str("tmux actions require running inside tmux");
            return Step { save_state: true, reply: Reply::Continue };
        }
        Step { save_state: true, reply: Reply::Launch { action, targets: t } }
    }

    /// Opens the targets in a tiled window.
    pub fn run_tiled(&mut self) -> (r: Step)
        ensures
            (final(self)@, r@) == run_tiled(old(self)@),
    {
        let t = self.targets();
        if t.len() == 0 {
            return Step { save_state: false, reply: Reply::Continue };
        }
        self.add_recents(&t);
        if t.len() == 1 {
            return self.run_multi(PaneAction::NewWindow);
        }
        if !self.in_tmux {
            self.status = String::from_str("tiled layout requires running inside tmux");
            return Step { save_state: true, reply: Reply::Continue };
        }
        Step { save_state: true, reply: Reply::Tiled { targets: t } }
    }

    /// What Enter does in the list.
    pub fn enter_default(&mut self) -> (r: Step)
        ensures
            (final(self)@, r@) == enter_default(old(self)@),
    {
        if self.selected_aliases.len() > 0 {
            let action = if text::str_eq(self.enter_mode.as_str(), "v") {
                PaneAction::SplitVertical
            } else if text::str_eq(self.enter_mode.as_str(), "s") {
                PaneAction::SplitHorizontal
            } else {
                PaneAction::NewWindow
            };
            return self.run_multi(action);
        }
        let (alias, user) = match self.current() {
            None => {
                return Step { save_state: false, reply: Reply::Continue };
            },
            Some(p) => p,
        };
        self.store.add_recent(alias.as_str());
        if text::str_eq(self.enter_mode.as_str(), "w") {
            self.run_multi(PaneAction::NewWindow)
        } else if text::str_eq(self.enter_mode.as_str(), "v") {
            self.run_multi(PaneAction::SplitVertical)
        } else if text::str_eq(self.enter_mode.as_str(), "s") {
            self.run_multi(PaneAction::SplitHorizontal)
        } else if text::str_eq(self.enter_mode.as_str(), "o") {
            Step { save_state: true, reply: Reply::Origin { alias } }
        } else {
            Step { save_state: true, reply: Reply::Connect { alias, user } }
        }
    }

    /// Opens the credential form for the host under the cursor.
    pub fn open_cred(&mut self, action: &str)
        ensures
            final(self)@ == opened_cred(old(self)@, action@),
    {
        if let Some((alias, user)) = self.current() {
            self.show_cred = true;
            self.cred = CredentialModal {
                action: String::from_str(action),
                host: alias,
                field: 0,
                user,
                kind: String::from_str("password"),
                status: String::new(),
            };
        }
    }
}

impl Picker {
    /// A picker over `hosts`, listing them all; the search box has the
    /// focus when `start_in_search`.
    pub fn new(
        hosts: Vec<Host>,
        store: Store,
        start_in_search: bool,
        implicit_select: bool,
        enter_mode: String,
        in_tmux: bool,
    ) -> (p: Picker)
        ensures
            p@.candidates.len() == hosts@.len(),
            forall|i: int| 0 <= i < hosts@.len() ==> search::candidate_of(#[trigger] hosts@[i], p@.candidates[i]),
            p@ == recomputed(
                PickerView {
                    hosts: hosts@.map_values(|h: Host| h@),
                    candidates: p@.candidates,
                    store: store@,
                    implicit_select,
                    enter_mode: enter_mode@,
                    in_tmux,
                    search: Seq::empty(),
                    last_query: Seq::empty(),
                    search_focused: start_in_search,
                    filtered: Seq::empty(),
                    selected: 0,
                    scroll: 0,
                    selected_aliases: Seq::empty(),
                    filter_favorites: false,
                    filter_recents: false,
                    status: Seq::empty(),
                    pending_g: false,
                    show_add: false,
                    show_cred: false,
                    add: empty_add_modal(),
                    cred: CredModalView {
                        action: Seq::empty(),
                        host: Seq::empty(),
                        field: 0,
                        user: Seq::empty(),
                        kind: "password"@,
                        status: Seq::empty(),
                    },
                },
            ),
    {
        let candidates = search::build_candidates(&hosts);
        let mut p = Picker {
            hosts,
            candidates,
            store,
            implicit_select,
            enter_mode,
            in_tmux,
            search: String::new(),
            last_query: String::new(),
            search_focused: start_in_search,
            filtered: Vec::new(),
            selected: 0,
            scroll: 0,
            selected_aliases: Vec::new(),
            filter_favorites: false,
            filter_recents: false,
            status: String::new(),
            pending_g: false,
            show_add: false,
            show_cred: false,
            add: AddHostModal::new(),
            cred: CredentialModal {
                action: String::new(),
                host: String::new(),
                field: 0,
                user: String::new(),
                kind: String::from_str("password"),
                status: String::new(),
            },
        };
        proof {
            assert(strings_view(p.selected_aliases@) =~= Seq::<Seq<char>>::empty());
        }
        p.recompute();
        p
    }

    /// Takes the reloaded hosts after a host was added: rebuilds the list,
    /// closes the form and reports the addition.
    pub fn host_added(&mut self, hosts: Vec<Host>)
        ensures
            final(self)@.candidates.len() == hosts@.len(),
            forall|i: int| 0 <= i < hosts@.len() ==> search::candidate_of(#[trigger] hosts@[i], final(self)@.candidates[i]),
            final(self)@ == (PickerView {
                show_add: false,
                status: "host added to ~/.ssh/config"@,
                ..recomputed(PickerView {
                    hosts: hosts@.map_values(|h: Host| h@),
                    candidates: final(self)@.candidates,
                    ..old(self)@
                })
            }),
    {
        self.candidates = search::build_candidates(&hosts);
        self.hosts = hosts;
        self.recompute();
        self.show_add = false;
        self.status = String::from_str("host added to ~/.ssh/config");
    }

    /// A key in the search box.
    fn handle_search_key(&mut self, k: KeyPress) -> (r: Step)
        ensures
            (final(self)@, r@) == search_step(old(self)@, k),
    {
        let c = k.code;
        if c == Key::Char('c') && k.mods == Mods::Control {
            return Step { save_state: false, reply: Reply::Quit };
        }
        if c == Key::Esc {
            self.search_focused = false;
            return Step { save_state: false, reply: Reply::Continue };
        }
        if c == Key::Up {
            self.move_sel(true);
            return Step { save_state: false, reply: Reply::Continue };
        }
        if c == Key::Down {
            self.move_sel(false);
            return Step { save_state: false, reply: Reply::Continue };
        }
        if c == Key::Enter {
            self.search_focused = false;
            self.recompute();
            if self.implicit_select {
                return self.enter_default();
            }
            return Step { save_state: false, reply: Reply::Continue };
        }
        if c == Key::Char('a') && k.mods == Mods::Control {
            self.toggle_select_all_filtered();
            return Step { save_state: false, reply: Reply::Continue };
        }
        if c == Key::Backspace {
            self.search.pop();
            self.recompute();
            return Step { save_state: false, reply: Reply::Continue };
        }
        if let Key::Char(ch) = c {
            if k.mods == Mods::Plain {
                self.search.push(ch);
                self.recompute();
                return Step { save_state: false, reply: Reply::Continue };
            }
        }
        Step { save_state: false, reply: Reply::Continue }
    }

    /// A key in the list.
    fn handle_normal_key(&mut self, k: KeyPress) -> (r: Step)
        ensures
            (final(self)@, r@) == normal_step(old(self)@, k),
    {
        let c = k.code;
        if (c == Key::Char('c') && k.mods == Mods::Control) || c == Key::Char('q') || c == Key::Esc
            || c == Key::Char('/') || c == Key::Up || c == Key::Char('k') || c == Key::Down || c
            == Key::Char('j') || c == Key::Char('g') || c == Key::Char('G') || c == Key::Char(' ') {
            self.normal_nav_key(k)
        } else if c == Key::Char('f') || c == Key::Char('F') || c == Key::Char('R') || c == Key::Char(
            'c',
        ) || c == Key::Char('d') || c == Key::Char('a') {
            self.normal_list_key(k)
        } else {
            self.normal_run_key(k)
        }
    }

    /// Quitting, searching and moving in the list.
    fn normal_nav_key(&mut self, k: KeyPress) -> (r: Step)
        requires
            (k.code == Key::Char('c') && k.mods == Mods::Control) || k.code == Key::Char('q') || k.code
                == Key::Esc || k.code == Key::Char('/') || k.code == Key::Up || k.code == Key::Char('k')
                || k.code == Key::Down || k.code == Key::Char('j') || k.code == Key::Char('g') || k.code
                == Key::Char('G') || k.code == Key::Char(' '),
        ensures
            (final(self)@, r@) == normal_step(old(self)@, k),
    {
        let c = k.code;
        if (c == Key::Char('c') && k.mods == Mods::Control) || c == Key::Char('q') || c == Key::Esc {
            return Step { save_state: false, reply: Reply::Quit };
        }
        if c == Key::Char('/') {
            self.search_focused = true;
            return Step { save_state: false, reply: Reply::Continue };
        }
        if c == Key::Up || c == Key::Char('k') {
            self.move_sel(true);
            self.pending_g = false;
            return Step { save_state: false, reply: Reply::Continue };
        }
        if c == Key::Down || c == Key::Char('j') {
            self.move_sel(false);
            self.pending_g = false;
            return Step { save_state: false, reply: Reply::Continue };
        }
        if c == Key::Char('g') {
            if self.pending_g {
                self.selected = 0;
                self.scroll = 0;
                self.pending_g = false;
            } else {
                self.pending_g = true;
            }
            return Step { save_state: false, reply: Reply::Continue };
        }
        if c == Key::Char('G') {
            if self.filtered.len() > 0 {
                self.selected = self.filtered.len() - 1;
                self.ensure_visible();
            }
            self.pending_g = false;
            return Step { save_state: false, reply: Reply::Continue };
        }
        if c == Key::Char(' ') {
            self.toggle_current();
            self.pending_g = false;
            return Step { save_state: false, reply: Reply::Continue };
        }
        Step { save_state: false, reply: Reply::Continue }
    }

    /// Favorites, filters, and opening the forms.
    #[verifier::rlimit(40)]
    fn normal_list_key(&mut self, k: KeyPress) -> (r: Step)
        requires
            !((k.code == Key::Char('c') && k.mods == Mods::Control) || k.code == Key::Char('q')
                || k.code == Key::Esc || k.code == Key::Char('/') || k.code == Key::Up || k.code
                == Key::Char('k') || k.code == Key::Down || k.code == Key::Char('j') || k.code
                == Key::Char('g') || k.code == Key::Char('G') || k.code == Key::Char(' ')),
            k.code == Key::Char('f') || k.code == Key::Char('F') || k.code == Key::Char('R') || k.code
                == Key::Char('c') || k.code == Key::Char('d') || k.code == Key::Char('a'),
        ensures
            (final(self)@, r@) == normal_step(old(self)@, k),
    {
        let c = k.code;
        if c == Key::Char('f') {
            let mut save = false;
            if let Some((alias, _)) = self.current() {
                let on = self.store.toggle_favorite(alias.as_str());
                save = true;
                self.status = if on {
                    String::from_str("favorite added")
                } else {
                    String::from_str("favorite removed")
                };
                self.recompute();
            }
            self.pending_g = false;
            return Step { save_state: save, reply: Reply::Continue };
        }
        if c == Key::Char('F') {
            self.filter_favorites = !self.filter_favorites;
            if self.filter_favorites {
                self.filter_recents = false;
            }
            self.recompute();
            self.pending_g = false;
            return Step { save_state: false, reply: Reply::Continue };
        }
        if c == Key::Char('R') {
            self.filter_recents = !self.filter_recents;
            if self.filter_recents {
                self.filter_favorites = false;
            }
            self.recompute();
            self.pending_g = false;
            return Step { save_state: false, reply: Reply::Continue };
        }
        if c == Key::Char('c') {
            self.pending_g = false;
            self.open_cred("set");
            return Step { save_state: false, reply: Reply::Continue };
        }
        if c == Key::Char('d') {
            self.pending_g = false;
            self.open_cred("delete");
            return Step { save_state: false, reply: Reply::Continue };
        }
        if c == Key::Char('a') && k.mods == Mods::Plain {
            self.show_add = true;
            self.add = AddHostModal::new();
            self.pending_g = false;
            return Step { save_state: false, reply: Reply::Continue };
        }
        if c == Key::Char('a') && k.mods == Mods::Control {
            self.toggle_select_all_filtered();
            self.pending_g = false;
            return Step { save_state: false, reply: Reply::Continue };
        }
        self.pending_g = false;
        Step { save_state: false, reply: Reply::Continue }
    }

    /// Connecting and opening panes.
    #[verifier::rlimit(60)]
    fn normal_run_key(&mut self, k: KeyPress) -> (r: Step)
        requires
            !((k.code == Key::Char('c') && k.mods == Mods::Control) || k.code == Key::Char('q')
                || k.code == Key::Esc || k.code == Key::Char('/') || k.code == Key::Up || k.code
                == Key::Char('k') || k.code == Key::Down || k.code == Key::Char('j') || k.code
                == Key::Char('g') || k.code == Key::Char('G') || k.code == Key::Char(' ')),
            !(k.code == Key::Char('f') || k.code == Key::Char('F') || k.code == Key::Char('R') || k.code
                == Key::Char('c') || k.code == Key::Char('d') || k.code == Key::Char('a')),
        ensures
            (final(self)@, r@) == normal_step(old(self)@, k),
    {
        let c = k.code;
        if c == Key::Enter {
            self.pending_g = false;
            return self.enter_default();
        }
        if c == Key::Char('v') {
            self.pending_g = false;
            return self.run_multi(PaneAction::SplitVertical);
        }
        if c == Key::Char('s') {
            self.pending_g = false;
            return self.run_multi(PaneAction::SplitHorizontal);
        }
        if c == Key::Char('w') {
            self.pending_g = false;
            return self.run_multi(PaneAction::NewWindow);
        }
        if c == Key::Char('t') {
            self.pending_g = false;
            return self.run_tiled();
        }
        if c == Key::Char('p') {
            self.pending_g = false;
            if let Some((alias, user)) = self.current() {
                self.store.add_recent(alias.as_str());
                return Step { save_state: true, reply: Reply::Connect { alias, user } };
            }
            return Step { save_state: false, reply: Reply::Continue };
        }
        if c == Key::Char('o') {
            self.pending_g = false;
            if let Some((alias, _user)) = self.current() {
                self.store.add_recent(alias.as_str());
                return Step { save_state: true, reply: Reply::Origin { alias } };
            }
            return Step { save_state: false, reply: Reply::Continue };
        }
        self.pending_g = false;
        Step { save_state: false, reply: Reply::Continue }
    }

    /// A key in the credential form.
    fn handle_cred_key(&mut self, k: KeyPress) -> (r: Step)
        ensures
            (final(self)@, r@) == cred_step(old(self)@, k),
    {
        let c = k.code;
        if c == Key::Esc {
            self.show_cred = false;
            return Step { save_state: false, reply: Reply::Continue };
        }
        if c == Key::Tab || c == Key::Down || c == Key::Char('j') || c == Key::BackTab || c == Key::Up
            || c == Key::Char('k') {
            self.cred.field = (self.cred.field % 2 + 1) % 2;
            return Step { save_state: false, reply: Reply::Continue };
        }
        if c == Key::Enter {
            let user = text::trim_str(self.cred.user.as_str());
            let mut kind = text::trim_str(self.cred.kind.as_str());
            if kind.as_str().is_empty() {
                kind = String::from_str("password");
            }
            self.show_cred = false;
            let pause = text::str_eq(self.cred.action.as_str(), "set");
            return Step {
                save_state: false,
                reply: Reply::Credential {
                    action: self.cred.action.clone(),
                    host: self.cred.host.clone(),
                    user,
                    kind,
                    pause,
                },
            };
        }
        if c == Key::Backspace {
            if self.cred.field == 0 {
                self.cred.user.pop();
            } else if self.cred.field == 1 {
                self.cred.kind.pop();
            }
            return Step { save_state: false, reply: Reply::Continue };
        }
        if let Key::Char(ch) = c {
            if k.mods == Mods::Plain {
                if self.cred.field == 0 {
                    self.cred.user.push(ch);
                } else if self.cred.field == 1 {
                    self.cred.kind.push(ch);
                }
                return Step { save_state: false, reply: Reply::Continue };
            }
        }
        Step { save_state: false, reply: Reply::Continue }
    }

    /// Removes the last character of the focused add-host field.
    fn pop_add_field(&mut self)
        ensures
            final(self)@ == (PickerView { add: edit_add_field(old(self)@.add, |s: Seq<char>| popped(s)), ..old(self)@ }),
    {
        let f = self.add.field;
        if f == 0 {
            self.add.alias.pop();
        } else if f == 1 {
            self.add.hostname.pop();
        } else if f == 2 {
            self.add.user.pop();
        } else if f == 3 {
            self.add.port.pop();
        } else if f == 4 {
            self.add.proxyjump.pop();
        } else {
            self.add.identity_file.pop();
        }
    }

    /// Appends `ch` to the focused add-host field.
    fn push_add_field(&mut self, ch: char)
        ensures
            final(self)@ == (PickerView { add: edit_add_field(old(self)@.add, |s: Seq<char>| s.push(ch)), ..old(self)@ }),
    {
        let f = self.add.field;
        if f == 0 {
            self.add.alias.push(ch);
        } else if f == 1 {
            self.add.hostname.push(ch);
        } else if f == 2 {
            self.add.user.push(ch);
        } else if f == 3 {
            self.add.port.push(ch);
        } else if f == 4 {
            self.add.proxyjump.push(ch);
        } else {
            self.add.identity_file.push(ch);
        }
    }

    /// A key in the add-host form.
    fn handle_add_key(&mut self, k: KeyPress) -> (r: Step)
        ensures
            (final(self)@, r@) == add_step(old(self)@, k),
    {
        let c = k.code;
        if c == Key::Esc {
            self.show_add = false;
            return Step { save_state: false, reply: Reply::Continue };
        }
        if c == Key::Tab || c == Key::Down || c == Key::Char('j') {
            self.add.field = (self.add.field % 6 + 1) % 6;
            return Step { save_state: false, reply: Reply::Continue };
        }
        if c == Key::BackTab || c == Key::Up || c == Key::Char('k') {
            self.add.field = (self.add.field % 6 + 5) % 6;
            return Step { save_state: false, reply: Reply::Continue };
        }
        if c == Key::Enter {
            let port_text = text::trim_str(self.add.port.as_str());
            let port = crate::sshconfig::parse_port(self.add.port.as_str());
            if !port_text.as_str().is_empty() && port == 0 {
                self.add.status = String::from_str("port must be a positive integer");
                return Step { save_state: false, reply: Reply::Continue };
            }
            let input = AddHostInput {
                alias: text::trim_str(self.add.alias.as_str()),
                hostname: text::trim_str(self.add.hostname.as_str()),
                user: text::trim_str(self.add.user.as_str()),
                port,
                proxyjump: text::trim_str(self.add.proxyjump.as_str()),
                identity_file: text::trim_str(self.add.identity_file.as_str()),
            };
            return Step { save_state: false, reply: Reply::AddHost { input } };
        }
        if c == Key::Backspace {
            self.pop_add_field();
            return Step { save_state: false, reply: Reply::Continue };
        }
        if let Key::Char(ch) = c {
            if k.mods == Mods::Plain {
                self.push_add_field(ch);
                return Step { save_state: false, reply: Reply::Continue };
            }
        }
        Step { save_state: false, reply: Reply::Continue }
    }

    /// Handles a key press: the open form takes it, else the search box when
    /// it has the focus, else the list.
    pub fn handle_key(&mut self, k: KeyPress) -> (r: Step)
        ensures
            (final(self)@, r@) == key_step(old(self)@, k),
    {
        if self.show_add {
            self.handle_add_key(k)
        } else if self.show_cred {
            self.handle_cred_key(k)
        } else if self.search_focused {
            self.handle_search_key(k)
        } else {
            self.handle_normal_key(k)
        }
    }
}

} // verus!
