//! What the picker shows: the text of each screen line and which lines are
//! highlighted. Drawing them is left to the terminal front end.
use vstd::prelude::*;

use crate::picker::{Picker, PickerView};
use crate::search::CandidateView;
use crate::text;

verus! {

/// The key help shown under the host list.
pub open spec fn list_help() -> Seq<char> {
    " / search | enter connect | space select | v split-v | s split-h | w window | t tiled | c store cred | d delete cred | f favorite | F favorites | R recents | a add host | q quit "@
}

/// A footer: the help, then the status on a line of its own when there is
/// one.
pub open spec fn footer_of(help: Seq<char>, status: Seq<char>) -> Seq<char> {
    if status.len() == 0 {
        help
    } else {
        help + seq!['\n'] + status
    }
}

fn footer(help: &str, status: &String) -> (r: String)
    ensures
        r@ == footer_of(help@, status@),
{
    let mut r = text::copy_str(help);
    if !status.as_str().is_empty() {
        r.push('\n');
        text::push_str(&mut r, status.as_str());
    }
    r
}

/// One row of the host list.
#[derive(Debug)]
pub struct ListRow {
    /// The cursor is on this row.
    pub cursor: bool,
    /// The host is marked for a multi-host action.
    pub marked: bool,
    /// The host is a favorite.
    pub favorite: bool,
    /// The host's display line.
    pub line: String,
}

/// A row by view.
pub struct RowView {
    pub cursor: bool,
    pub marked: bool,
    pub favorite: bool,
    pub line: Seq<char>,
}

impl View for ListRow {
    type V = RowView;

    open spec fn view(&self) -> RowView {
        RowView { cursor: self.cursor, marked: self.marked, favorite: self.favorite, line: self.line@ }
    }
}

/// The candidate listed at position `i` (an empty one when the index is out
/// of range).
pub open spec fn listed(v: PickerView, i: int) -> Option<CandidateView> {
    if 0 <= i < v.filtered.len() && v.filtered[i] < v.candidates.len() {
        Some(v.candidates[v.filtered[i] as int])
    } else {
        None
    }
}

/// The row for list position `i`.
pub open spec fn row_at(v: PickerView, i: int) -> RowView {
    match listed(v, i) {
        Some(c) => RowView {
            cursor: i == v.selected,
            marked: v.selected_aliases.contains(c.host.alias),
            favorite: v.store.favorites.contains(text::trim(c.host.alias)),
            line: c.line,
        },
        None => RowView { cursor: i == v.selected, marked: false, favorite: false, line: Seq::empty() },
    }
}

/// The end of the visible part of the list for a list area `height` rows
/// tall.
pub open spec fn visible_end(v: PickerView, height: usize) -> int {
    if v.filtered.len() < v.scroll + height {
        v.filtered.len() as int
    } else {
        v.scroll + height
    }
}

/// The host list as shown: the search line, the visible rows, whether the
/// "no hosts matched" notice shows, and the footer.
#[derive(Debug)]
pub struct ListScreen {
    pub search_line: String,
    pub search_focused: bool,
    pub rows: Vec<ListRow>,
    pub no_match: bool,
    pub footer: String,
}

/// One line of a form, and whether its field has the focus.
#[derive(Debug)]
pub struct FormLine {
    pub text: String,
    pub focused: bool,
}

/// A form as shown: its title, its lines, and its footer.
#[derive(Debug)]
pub struct FormScreen {
    pub title: String,
    pub lines: Vec<FormLine>,
    pub footer: String,
}

impl Picker {
    /// The host list screen for a list area `height` rows tall.
    pub fn list_screen(&self, height: usize) -> (r: ListScreen)
        ensures
            r.search_line@ == "/ "@ + self@.search,
            r.search_focused == self@.search_focused,
            r.no_match == (self@.filtered.len() == 0),
            r.footer@ == footer_of(list_help(), self@.status),
            self@.scroll < visible_end(self@, height) ==> r.rows.len() == visible_end(self@, height) - self@.scroll,
            self@.scroll >= visible_end(self@, height) ==> r.rows.len() == 0,
            forall|k: int| 0 <= k < r.rows.len() ==> (#[trigger] r.rows@[k])@ == row_at(self@, self@.scroll + k),
    {
        let mut search_line = String::from_str("/ ");
        text::push_str(&mut search_line, self.search.as_str());
        let len = self.filtered.len();
        let end: usize = if self.scroll >= len {
            len
        } else if height >= len - self.scroll {
            len
        } else {
            self.scroll + height
        };
        let mut rows: Vec<ListRow> = Vec::new();
        let mut i = self.scroll;
        while i < end
            invariant
                self.scroll <= i,
                self.scroll < end ==> i <= end,
                self.scroll >= end ==> i == self.scroll,
                end <= self.filtered.len(),
                rows.len() == i - self.scroll,
                forall|k: int| 0 <= k < rows.len() ==> (#[trigger] rows@[k])@ == row_at(self@, self@.scroll + k),
            decreases end - i,
        {
            let row = self.row(i);
            rows.push(row);
            i += 1;
        }
        proof {
            reveal_strlit("/ ");
        }
        ListScreen {
            search_line,
            search_focused: self.search_focused,
            rows,
            no_match: len == 0,
            footer: footer(
                " / search | enter connect | space select | v split-v | s split-h | w window | t tiled | c store cred | d delete cred | f favorite | F favorites | R recents | a add host | q quit ",
                &self.status,
            ),
        }
    }

    fn row(&self, i: usize) -> (r: ListRow)
        ensures
            r@ == row_at(self@, i as int),
    {
        if i < self.filtered.len() && self.filtered[i] < self.candidates.len() {
            let c = &self.candidates[self.filtered[i]];
            let marked = crate::state::contains_string(&self.selected_aliases, c.host.alias.as_str());
            let favorite = self.store.is_favorite(c.host.alias.as_str());
            ListRow { cursor: i == self.selected, marked, favorite, line: c.line.clone() }
        } else {
            ListRow { cursor: i == self.selected, marked: false, favorite: false, line: String::new() }
        }
    }
}

fn labelled(label: &str, value: &String, focused: bool) -> (r: FormLine)
    ensures
        r.text@ == label@ + ": "@ + value@,
        r.focused == focused,
{
    let mut t = text::copy_str(label);
    text::push_str(&mut t, ": ");
    text::push_str(&mut t, value.as_str());
    FormLine { text: t, focused }
}

impl Picker {
    /// The add-host form: one line per field, the focused one marked.
    pub fn add_screen(&self) -> (r: FormScreen)
        ensures
            r.title@ == "Add SSH Host"@,
            r.lines.len() == 6,
            r.lines@[0].text@ == "Alias: "@ + self@.add.alias,
            r.lines@[1].text@ == "HostName: "@ + self@.add.hostname,
            r.lines@[2].text@ == "User: "@ + self@.add.user,
            r.lines@[3].text@ == "Port: "@ + self@.add.port,
            r.lines@[4].text@ == "ProxyJump: "@ + self@.add.proxyjump,
            r.lines@[5].text@ == "IdentityFile: "@ + self@.add.identity_file,
            forall|k: int| 0 <= k < 6 ==> (#[trigger] r.lines@[k]).focused == (k == self@.add.field),
            r.footer@ == footer_of("enter save | tab/j/k move | esc cancel"@, self@.add.status),
    {
        let f = self.add.field;
        let lines = vec![
            labelled("Alias", &self.add.alias, f == 0),
            labelled("HostName", &self.add.hostname, f == 1),
            labelled("User", &self.add.user, f == 2),
            labelled("Port", &self.add.port, f == 3),
            labelled("ProxyJump", &self.add.proxyjump, f == 4),
            labelled("IdentityFile", &self.add.identity_file, f == 5),
        ];
        proof {
            reveal_strlit("Alias");
            reveal_strlit("HostName");
            reveal_strlit("User");
            reveal_strlit("Port");
            reveal_strlit("ProxyJump");
            reveal_strlit("IdentityFile");
            reveal_strlit(": ");
            reveal_strlit("Alias: ");
            reveal_strlit("HostName: ");
            reveal_strlit("User: ");
            reveal_strlit("Port: ");
            reveal_strlit("ProxyJump: ");
            reveal_strlit("IdentityFile: ");
            assert("Alias"@ + ": "@ =~= "Alias: "@);
            assert("HostName"@ + ": "@ =~= "HostName: "@);
            assert("User"@ + ": "@ =~= "User: "@);
            assert("Port"@ + ": "@ =~= "Port: "@);
            assert("ProxyJump"@ + ": "@ =~= "ProxyJump: "@);
            assert("IdentityFile"@ + ": "@ =~= "IdentityFile: "@);
        }
        FormScreen {
            title: String::from_str("Add SSH Host"),
            lines,
            footer: footer("enter save | tab/j/k move | esc cancel", &self.add.status),
        }
    }

    /// The credential form: the host, then the user and kind fields, the
    /// focused one marked; titled for deleting or storing.
    pub fn cred_screen(&self) -> (r: FormScreen)
        ensures
            r.title@ == if self@.cred.action == "delete"@ {
                "Delete Credential"@
            } else {
                "Store Credential"@
            },
            r.lines.len() == 3,
            r.lines@[0].text@ == "Host: "@ + self@.cred.host,
            !r.lines@[0].focused,
            r.lines@[1].text@ == "User: "@ + self@.cred.user,
            r.lines@[1].focused == (self@.cred.field == 0),
            r.lines@[2].text@ == "Kind: "@ + self@.cred.kind,
            r.lines@[2].focused == (self@.cred.field == 1),
            r.footer@ == footer_of("enter run | tab/j/k move | esc cancel"@, self@.cred.status),
    {
        let title = if text::str_eq(self.cred.action.as_str(), "delete") {
            String::from_str("Delete Credential")
        } else {
            String::from_str("Store Credential")
        };
        let lines = vec![
            labelled("Host", &self.cred.host, false),
            labelled("User", &self.cred.user, self.cred.field == 0),
            labelled("Kind", &self.cred.kind, self.cred.field == 1),
        ];
        proof {
            reveal_strlit("Host");
            reveal_strlit("User");
            reveal_strlit("Kind");
            reveal_strlit(": ");
            reveal_strlit("Host: ");
            reveal_strlit("User: ");
            reveal_strlit("Kind: ");
            assert("Host"@ + ": "@ =~= "Host: "@);
            assert("User"@ + ": "@ =~= "User: "@);
            assert("Kind"@ + ": "@ =~= "Kind: "@);
        }
        FormScreen { title, lines, footer: footer("enter run | tab/j/k move | esc cancel", &self.cred.status) }
    }
}

} // verus!
