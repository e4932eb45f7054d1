//! The state of an editor over one dump: what is loaded, selected, changed and reported. The
//! surroundings read and write files, ask for paths and run SCEWIN, and tell the editor what came
//! of it.

use vstd::prelude::*;
use vstd::string::*;

use crate::change_format;
use crate::codec;
use crate::nvram;
use crate::nvram::{BiosSetting, LoadedNvram, NvramView, SettingView};
use crate::presets;
use crate::presets::LogRow;
use crate::roundtrip;
use crate::scewin;
use crate::search;
use crate::text;
use crate::validation;

verus! {

// ---------------------------------------------------------------------------
// State
// ---------------------------------------------------------------------------

/// One change of this session.
pub struct ChangeLogEntry {
    pub seq: u32,
    pub setting: String,
    pub summary: String,
    pub token: String,
    pub offset: String,
}

/// A change as texts and numbers.
#[verifier::ext_equal]
pub struct EntryView {
    pub seq: u32,
    pub setting: Seq<char>,
    pub summary: Seq<char>,
    pub token: Seq<char>,
    pub offset: Seq<char>,
}

impl View for ChangeLogEntry {
    type V = EntryView;

    open spec fn view(&self) -> EntryView {
        EntryView {
            seq: self.seq,
            setting: self.setting@,
            summary: self.summary@,
            token: self.token@,
            offset: self.offset@,
        }
    }
}

/// The changes that a vector holds.
pub open spec fn entry_views(v: Seq<ChangeLogEntry>) -> Seq<EntryView> {
    Seq::new(v.len(), |i: int| v[i]@)
}

/// Which settings the list shows.
#[derive(Clone, Copy, PartialEq, Eq, Structural)]
pub enum ListFilterKind {
    All,
    Options,
    Values,
}

/// The state of the editor.
pub struct Editor {
    /// The dump that is being edited.
    pub data: Option<LoadedNvram>,
    /// The settings as they were loaded.
    pub original_settings: Vec<BiosSetting>,
    pub selected: Option<usize>,
    /// Success or failure of what was done last, and a message about it.
    pub status: Option<(bool, String)>,
    /// The text in the value field, without the brackets around it.
    pub value_edit_buffer: String,
    pub value_outer_prefix: String,
    pub value_outer_suffix: String,
    /// What the value field held when the setting was selected or its change was logged.
    pub value_edit_baseline: String,
    /// There are changes that were not saved.
    pub dirty: bool,
    pub show_only_changed: bool,
    pub list_filter_kind: ListFilterKind,
    /// The directory of SCEWIN, if it was found.
    pub scewin_work: Option<Vec<String>>,
    pub autostart_done: bool,
    /// The changes of this session, the latest first.
    pub change_log: Vec<ChangeLogEntry>,
    pub change_seq: u32,
    /// SCEWIN is running.
    pub busy: bool,
    pub preset_input: String,
    /// The message that pops up when SCEWIN has ended.
    pub center_toast: Option<(bool, String)>,
    /// How often the window is still to be maximized.
    pub startup_maximize_attempts_left: u8,
}

/// The state of the editor as texts and numbers.
#[verifier::ext_equal]
pub struct EditorView {
    pub data: Option<NvramView>,
    pub original_settings: Seq<SettingView>,
    pub selected: Option<int>,
    pub status: Option<(bool, Seq<char>)>,
    pub value_edit_buffer: Seq<char>,
    pub value_outer_prefix: Seq<char>,
    pub value_outer_suffix: Seq<char>,
    pub value_edit_baseline: Seq<char>,
    pub dirty: bool,
    pub show_only_changed: bool,
    pub list_filter_kind: ListFilterKind,
    pub scewin_work: Option<Seq<Seq<char>>>,
    pub autostart_done: bool,
    pub change_log: Seq<EntryView>,
    pub change_seq: u32,
    pub busy: bool,
    pub preset_input: Seq<char>,
    pub center_toast: Option<(bool, Seq<char>)>,
    pub startup_maximize_attempts_left: u8,
}

/// A message as text.
pub open spec fn message_view(m: Option<(bool, String)>) -> Option<(bool, Seq<char>)> {
    match m {
        Some(p) => Some((p.0, p.1@)),
        None => None,
    }
}

/// A dump as texts and numbers.
pub open spec fn data_view(d: Option<LoadedNvram>) -> Option<NvramView> {
    match d {
        Some(l) => Some(l@),
        None => None,
    }
}

impl View for Editor {
    type V = EditorView;

    open spec fn view(&self) -> EditorView {
        EditorView {
            data: data_view(self.data),
            original_settings: nvram::setting_views(self.original_settings@),
            selected: nvram::optional_index(self.selected),
            status: message_view(self.status),
            value_edit_buffer: self.value_edit_buffer@,
            value_outer_prefix: self.value_outer_prefix@,
            value_outer_suffix: self.value_outer_suffix@,
            value_edit_baseline: self.value_edit_baseline@,
            dirty: self.dirty,
            show_only_changed: self.show_only_changed,
            list_filter_kind: self.list_filter_kind,
            scewin_work: nvram::optional_texts(self.scewin_work),
            autostart_done: self.autostart_done,
            change_log: entry_views(self.change_log@),
            change_seq: self.change_seq,
            busy: self.busy,
            preset_input: self.preset_input@,
            center_toast: message_view(self.center_toast),
            startup_maximize_attempts_left: self.startup_maximize_attempts_left,
        }
    }
}

/// The number of changes that are kept.
pub const MAX_LOG: usize = 400;

/// The state is consistent: what is selected is there, the originals are what the lines of the dump
/// list, every setting is its original with another option selected or another value, and the
/// history is no longer than it may be.
pub open spec fn consistent(v: EditorView) -> bool {
    &&& v.change_log.len() <= MAX_LOG
    &&& match v.data {
        Some(d) => {
            &&& v.original_settings == nvram::listed_settings(d.original_lines)
            &&& v.original_settings.len() == d.settings.len()
            &&& v.selected matches Some(i) ==> 0 <= i < d.settings.len()
            &&& forall|i: int|
                0 <= i < d.settings.len() ==> roundtrip::only_edited(
                    #[trigger] d.settings[i],
                    v.original_settings[i],
                )
        },
        None => v.selected is None,
    }
}

/// The state at the start, with SCEWIN in `work`.
pub open spec fn start_view(work: Option<Seq<Seq<char>>>) -> EditorView {
    EditorView {
        data: None,
        original_settings: seq![],
        selected: None,
        status: None,
        value_edit_buffer: seq![],
        value_outer_prefix: seq![],
        value_outer_suffix: seq![],
        value_edit_baseline: seq![],
        dirty: false,
        show_only_changed: false,
        list_filter_kind: ListFilterKind::All,
        scewin_work: work,
        autostart_done: false,
        change_log: seq![],
        change_seq: 0,
        busy: false,
        preset_input: seq![],
        center_toast: None,
        startup_maximize_attempts_left: 3,
    }
}

/// `v` with a message about what was done.
pub open spec fn reported(v: EditorView, ok: bool, message: Seq<char>) -> EditorView {
    EditorView { status: Some((ok, message)), ..v }
}

impl Editor {
    /// The state at the start.
    pub fn new(scewin_work: Option<Vec<String>>) -> (r: Editor)
        ensures
            r@ == start_view(nvram::optional_texts(scewin_work)),
    {
        let r: Editor = Editor {
            data: None,
            original_settings: Vec::new(),
            selected: None,
            status: None,
            value_edit_buffer: String::new(),
            value_outer_prefix: String::new(),
            value_outer_suffix: String::new(),
            value_edit_baseline: String::new(),
            dirty: false,
            show_only_changed: false,
            list_filter_kind: ListFilterKind::All,
            scewin_work,
            autostart_done: false,
            change_log: Vec::new(),
            change_seq: 0,
            busy: false,
            preset_input: String::new(),
            center_toast: None,
            startup_maximize_attempts_left: 3,
        };
        assert(r@ =~= start_view(nvram::optional_texts(scewin_work)));
        r
    }

    /// Sets the message about what was done.
    fn report(&mut self, ok: bool, message: String)
        ensures
            final(self)@ == reported(old(self)@, ok, message@),
    {
        self.status = Some((ok, message));
    }
}

// ---------------------------------------------------------------------------
// History
// ---------------------------------------------------------------------------

/// The number after `n`, which starts again at zero.
pub open spec fn next_seq(n: u32) -> u32 {
    if n == u32::MAX {
        0
    } else {
        (n + 1) as u32
    }
}

/// The first `MAX_LOG` entries.
pub open spec fn latest(log: Seq<EntryView>) -> Seq<EntryView> {
    if log.len() > MAX_LOG {
        log.take(MAX_LOG as int)
    } else {
        log
    }
}

/// `v` with one more change in the history.
pub open spec fn logged(v: EditorView, row: LogRow) -> EditorView {
    let entry = EntryView {
        seq: next_seq(v.change_seq),
        setting: text::trim(row.question),
        summary: row.summary,
        token: text::trim(row.token),
        offset: text::trim(row.offset),
    };
    EditorView {
        change_seq: next_seq(v.change_seq),
        change_log: latest(seq![entry] + v.change_log),
        ..v
    }
}

/// `v` with these changes in the history, the last of them on top.
pub open spec fn all_logged(v: EditorView, rows: Seq<LogRow>) -> EditorView
    decreases rows.len(),
{
    if rows.len() == 0 {
        v
    } else {
        logged(all_logged(v, rows.drop_last()), rows.last())
    }
}

/// What the history search looks at.
pub open spec fn entry_text(e: EntryView) -> Seq<char> {
    e.setting + " "@ + e.summary
}

/// The positions of the entries that the history shows for a query.
pub open spec fn shown_entries(log: Seq<EntryView>, query: Seq<char>) -> Seq<int>
    decreases log.len(),
{
    if log.len() == 0 {
        seq![]
    } else {
        let before = shown_entries(log.drop_last(), query);
        if search::found(entry_text(log.last()), query) {
            before.push(log.len() - 1)
        } else {
            before
        }
    }
}

impl Editor {
    /// Puts a change on top of the history, which keeps the latest ones only.
    pub fn push_change_log(&mut self, setting: &str, token: &str, offset: &str, summary: String)
        ensures
            final(self)@ == logged(
                old(self)@,
                (LogRow {
                    question: setting@,
                    token: token@,
                    offset: offset@,
                    summary: summary@,
                }),
            ),
    {
        let ghost v = self@;
        let ghost row = LogRow {
            question: setting@,
            token: token@,
            offset: offset@,
            summary: summary@,
        };
        self.change_seq = if self.change_seq == u32::MAX {
            0
        } else {
            self.change_seq + 1
        };
        let entry: ChangeLogEntry = ChangeLogEntry {
            seq: self.change_seq,
            setting: text::trim_text(setting),
            summary,
            token: text::trim_text(token),
            offset: text::trim_text(offset),
        };
        let ghost log = self.change_log@;
        self.change_log.insert(0, entry);
        assert(entry_views(self.change_log@) =~= seq![entry@] + entry_views(log));
        if self.change_log.len() > MAX_LOG {
            self.change_log.truncate(MAX_LOG);
        }
        proof {
            assert(entry_views(self.change_log@) =~= latest(seq![entry@] + v.change_log));
            assert(self@ =~= logged(v, row));
        }
    }

    /// Whether the history shows an entry for a query.
    pub fn entry_matches(entry: &ChangeLogEntry, query: &str) -> (r: bool)
        ensures
            r == search::found(entry_text(entry@), query@),
    {
        let blob: String = entry.setting.clone().concat(" ").concat(entry.summary.as_str());
        search::words_found(blob.as_str(), query)
    }

    /// The positions of the entries that the history shows for a query.
    pub fn history_indices(&self, query: &str) -> (r: Vec<usize>)
        ensures
            r@.map_values(|i: usize| i as int) == shown_entries(self@.change_log, query@),
    {
        let ghost all = self@.change_log;
        let mut r: Vec<usize> = Vec::new();
        let mut i: usize = 0;
        assert(r@.map_values(|i: usize| i as int) =~= seq![]);
        while i < self.change_log.len()
            invariant
                i <= self.change_log.len(),
                all == self@.change_log,
                r@.map_values(|i: usize| i as int) == shown_entries(all.take(i as int), query@),
            decreases self.change_log.len() - i,
        {
            let ghost before = r@;
            proof {
                assert(all.take(i + 1).drop_last() =~= all.take(i as int));
                assert(all.take(i + 1).last() == self.change_log@[i as int]@);
            }
            if Self::entry_matches(&self.change_log[i], query) {
                r.push(i);
                assert(r@.map_values(|i: usize| i as int) =~= before.map_values(
                    |i: usize| i as int,
                ).push(i as int));
            }
            i += 1;
        }
        assert(all.take(all.len() as int) =~= all);
        r
    }

    /// Empties the history.
    pub fn clear_history(&mut self)
        ensures
            final(self)@ == (EditorView { change_log: seq![], ..old(self)@ }),
    {
        self.change_log.clear();
        assert(self@ =~= (EditorView { change_log: seq![], ..old(self)@ }));
    }
}

// ---------------------------------------------------------------------------
// The list of settings
// ---------------------------------------------------------------------------

/// What the search looks at in a setting.
pub open spec fn setting_text(s: SettingView) -> Seq<char> {
    s.setup_question + " "@ + s.help_string + " "@ + s.token + " "@ + nvram::current_text(s)
}

/// Setting `i` of the dump that is loaded was changed.
pub open spec fn changed_at(v: EditorView, i: int) -> bool {
    match v.data {
        Some(d) => {
            &&& 0 <= i < d.settings.len()
            &&& i < v.original_settings.len()
            &&& validation::value_changed(d.settings[i], v.original_settings[i])
        },
        None => false,
    }
}

/// The list shows settings of this kind.
pub open spec fn kind_shown(kind: ListFilterKind, s: SettingView) -> bool {
    match kind {
        ListFilterKind::All => true,
        ListFilterKind::Options => s.options.len() > 0,
        ListFilterKind::Values => s.options.len() == 0,
    }
}

/// The list shows setting `i`, which is `s`.
pub open spec fn shown(v: EditorView, s: SettingView, i: int, query: Seq<char>) -> bool {
    &&& kind_shown(v.list_filter_kind, s)
    &&& !v.show_only_changed || changed_at(v, i)
    &&& search::found(setting_text(s), query)
}

/// The positions of the settings that the list shows.
pub open spec fn shown_settings(
    v: EditorView,
    settings: Seq<SettingView>,
    query: Seq<char>,
) -> Seq<int>
    decreases settings.len(),
{
    if settings.len() == 0 {
        seq![]
    } else {
        let before = shown_settings(v, settings.drop_last(), query);
        if shown(v, settings.last(), settings.len() - 1, query) {
            before.push(settings.len() - 1)
        } else {
            before
        }
    }
}

/// The number of the first `n` settings that were changed.
pub open spec fn changes_among(v: EditorView, n: int) -> nat
    decreases n,
{
    if n <= 0 {
        0
    } else {
        changes_among(v, n - 1) + (if changed_at(v, n - 1) {
            1nat
        } else {
            0
        })
    }
}

/// One setting that was changed, for the preview of an import.
pub struct ChangedRow {
    pub index: usize,
    pub name: String,
    pub before: String,
    pub after: String,
}

/// A changed setting as texts and numbers.
#[verifier::ext_equal]
pub struct RowView {
    pub index: int,
    pub name: Seq<char>,
    pub before: Seq<char>,
    pub after: Seq<char>,
}

impl View for ChangedRow {
    type V = RowView;

    open spec fn view(&self) -> RowView {
        RowView {
            index: self.index as int,
            name: self.name@,
            before: self.before@,
            after: self.after@,
        }
    }
}

/// The changed settings that a vector holds.
pub open spec fn row_views(v: Seq<ChangedRow>) -> Seq<RowView> {
    Seq::new(v.len(), |i: int| v[i]@)
}

/// The changed settings among the first `n`.
pub open spec fn changed_rows(v: EditorView, n: int) -> Seq<RowView>
    decreases n,
{
    if n <= 0 {
        seq![]
    } else {
        let before = changed_rows(v, n - 1);
        if changed_at(v, n - 1) {
            let s = (v.data->0).settings[n - 1];
            before.push(
                RowView {
                    index: n - 1,
                    name: text::trim(s.setup_question),
                    before: nvram::current_text(v.original_settings[n - 1]),
                    after: nvram::current_text(s),
                },
            )
        } else {
            before
        }
    }
}

/// The settings of the dump that is loaded.
pub open spec fn loaded_settings(v: EditorView) -> Seq<SettingView> {
    match v.data {
        Some(d) => d.settings,
        None => seq![],
    }
}

/// What the filter of the preview looks at.
pub open spec fn row_text(row: RowView) -> Seq<char> {
    row.name + " "@ + row.before + " "@ + row.after
}

/// The position of the first setting with this token and this offset, or the number of settings.
pub open spec fn first_at(settings: Seq<SettingView>, token: Seq<char>, offset: Seq<char>) -> int
    decreases settings.len(),
{
    if settings.len() == 0 || (text::trim(settings[0].token) == text::trim(token) && text::trim(
        settings[0].offset,
    ) == text::trim(offset)) {
        0
    } else {
        1 + first_at(settings.drop_first(), token, offset)
    }
}

/// The position of the first setting with this question, or the number of settings.
pub open spec fn first_named(settings: Seq<SettingView>, question: Seq<char>) -> int
    decreases settings.len(),
{
    if settings.len() == 0 || text::trim(settings[0].setup_question) == text::trim(question) {
        0
    } else {
        1 + first_named(settings.drop_first(), question)
    }
}

/// The setting that an entry of the history speaks of: by token and offset, or else by its name.
pub open spec fn setting_index(
    v: EditorView,
    token: Seq<char>,
    offset: Seq<char>,
    question: Seq<char>,
) -> Option<int> {
    let all = loaded_settings(v);
    if token.len() > 0 && offset.len() > 0 && first_at(all, token, offset) < all.len() {
        Some(first_at(all, token, offset))
    } else if first_named(all, question) < all.len() {
        Some(first_named(all, question))
    } else {
        None
    }
}

impl Editor {
    /// Whether a setting holds every word of a query in its question, help, token or current
    /// state.
    pub fn setting_matches_search(s: &BiosSetting, query: &str) -> (r: bool)
        ensures
            r == search::found(setting_text(s@), query@),
            text::all_ascii(setting_text(s@)) && text::all_ascii(query@) ==> r
                == search::ascii_found(setting_text(s@), query@),
    {
        let current: String = s.display_current();
        let blob: String = s.setup_question.clone().concat(" ").concat(
            s.help_string.as_str(),
        ).concat(" ").concat(s.token.as_str()).concat(" ").concat(current.as_str());
        search::words_found(blob.as_str(), query)
    }

    /// Whether setting `idx` was changed.
    pub fn is_setting_changed_at(&self, idx: usize) -> (r: bool)
        ensures
            r == changed_at(self@, idx as int),
    {
        if let Some(data) = &self.data {
            if idx < self.original_settings.len() && idx < data.settings.len() {
                return validation::setting_value_changed(
                    &data.settings[idx],
                    &self.original_settings[idx],
                );
            }
        }
        false
    }

    /// The positions of the settings that the list shows.
    pub fn filtered_indices(&self, data: &LoadedNvram, search: &str) -> (r: Vec<usize>)
        ensures
            r@.map_values(|i: usize| i as int) == shown_settings(
                self@,
                data@.settings,
                search@,
            ),
    {
        let ghost all = data@.settings;
        let mut r: Vec<usize> = Vec::new();
        let mut i: usize = 0;
        assert(r@.map_values(|i: usize| i as int) =~= seq![]);
        while i < data.settings.len()
            invariant
                i <= data.settings.len(),
                all == data@.settings,
                r@.map_values(|i: usize| i as int) == shown_settings(
                    self@,
                    all.take(i as int),
                    search@,
                ),
            decreases data.settings.len() - i,
        {
            let ghost before = r@;
            let s: &BiosSetting = &data.settings[i];
            proof {
                assert(all.take(i + 1).drop_last() =~= all.take(i as int));
                assert(all.take(i + 1).last() == s@);
                assert(s@.options.len() == s.options@.len());
            }
            let kind_ok: bool = match self.list_filter_kind {
                ListFilterKind::All => true,
                ListFilterKind::Options => s.options.len() > 0,
                ListFilterKind::Values => s.options.len() == 0,
            };
            if kind_ok && (!self.show_only_changed || self.is_setting_changed_at(i))
                && Self::setting_matches_search(s, search) {
                r.push(i);
                assert(r@.map_values(|i: usize| i as int) =~= before.map_values(
                    |i: usize| i as int,
                ).push(i as int));
            }
            i += 1;
        }
        assert(all.take(all.len() as int) =~= all);
        r
    }

    /// How many settings the list shows, and of how many.
    pub fn filter_stats(&self, data: &LoadedNvram, search: &str) -> (r: (usize, usize))
        ensures
            r.0 == shown_settings(self@, data@.settings, search@).len(),
            r.1 == data@.settings.len(),
    {
        let shown: Vec<usize> = self.filtered_indices(data, search);
        assert(shown@.map_values(|i: usize| i as int).len() == shown@.len());
        (shown.len(), data.settings.len())
    }

    /// How many settings were changed.
    pub fn changed_count(&self) -> (r: usize)
        ensures
            r == changes_among(self@, loaded_settings(self@).len() as int),
    {
        let data: &LoadedNvram = match &self.data {
            Some(d) => d,
            None => return 0,
        };
        let mut n: usize = 0;
        let mut i: usize = 0;
        while i < data.settings.len()
            invariant
                i <= data.settings.len(),
                n <= i,
                n == changes_among(self@, i as int),
            decreases data.settings.len() - i,
        {
            if self.is_setting_changed_at(i) {
                n += 1;
            }
            i += 1;
        }
        n
    }

    /// The settings that were changed, with what they were and what they are.
    pub fn collect_changed_rows(&self) -> (r: Vec<ChangedRow>)
        ensures
            row_views(r@) == changed_rows(self@, loaded_settings(self@).len() as int),
    {
        let mut r: Vec<ChangedRow> = Vec::new();
        assert(row_views(r@) =~= seq![]);
        let data: &LoadedNvram = match &self.data {
            Some(d) => d,
            None => return r,
        };
        let mut i: usize = 0;
        while i < data.settings.len()
            invariant
                i <= data.settings.len(),
                self.data is Some,
                *data == self.data->0,
                row_views(r@) == changed_rows(self@, i as int),
            decreases data.settings.len() - i,
        {
            let ghost before = r@;
            if self.is_setting_changed_at(i) {
                let row: ChangedRow = ChangedRow {
                    index: i,
                    name: text::trim_text(data.settings[i].setup_question.as_str()),
                    before: self.original_settings[i].display_current(),
                    after: data.settings[i].display_current(),
                };
                r.push(row);
                assert(row_views(r@) =~= row_views(before).push(row@));
            }
            i += 1;
        }
        r
    }

    /// Whether the preview shows a changed setting for a filter.
    pub fn row_matches(row: &ChangedRow, filter: &str) -> (r: bool)
        ensures
            r == search::filter_found(row_text(row@), filter@),
    {
        let blob: String = row.name.clone().concat(" ").concat(row.before.as_str()).concat(
            " ",
        ).concat(row.after.as_str());
        search::filter_matches(blob.as_str(), filter)
    }

    /// The setting that an entry of the history speaks of.
    pub fn find_setting_index(&self, token: &str, offset: &str, setting: &str) -> (r: Option<usize>)
        ensures
            nvram::optional_index(r) == setting_index(self@, token@, offset@, setting@),
    {
        let data: &LoadedNvram = match &self.data {
            Some(d) => d,
            None => return None,
        };
        let ghost all = data@.settings;
        if !token.is_empty() && !offset.is_empty() {
            let want_token: String = text::trim_text(token);
            let want_offset: String = text::trim_text(offset);
            let mut i: usize = 0;
            assert(all.skip(0) =~= all);
            while i < data.settings.len()
                invariant
                    i <= data.settings.len(),
                    all == data@.settings,
                    self.data is Some,
                    *data == self.data->0,
                    want_token@ == text::trim(token@),
                    want_offset@ == text::trim(offset@),
                    token@.len() > 0,
                    offset@.len() > 0,
                    first_at(all, token@, offset@) == i + first_at(
                        all.skip(i as int),
                        token@,
                        offset@,
                    ),
                decreases data.settings.len() - i,
            {
                let t: String = text::trim_text(data.settings[i].token.as_str());
                let o: String = text::trim_text(data.settings[i].offset.as_str());
                assert(all.skip(i as int)[0] == data.settings@[i as int]@);
                assert(all.skip(i as int).drop_first() =~= all.skip(i + 1));
                if text::text_eq(t.as_str(), want_token.as_str()) && text::text_eq(
                    o.as_str(),
                    want_offset.as_str(),
                ) {
                    return Some(i);
                }
                i += 1;
            }
        }
        let want: String = text::trim_text(setting);
        let mut i: usize = 0;
        assert(all.skip(0) =~= all);
        while i < data.settings.len()
            invariant
                i <= data.settings.len(),
                all == data@.settings,
                self.data is Some,
                *data == self.data->0,
                want@ == text::trim(setting@),
                token@.len() > 0 && offset@.len() > 0 ==> first_at(all, token@, offset@)
                    >= all.len(),
                first_named(all, setting@) == i + first_named(all.skip(i as int), setting@),
            decreases data.settings.len() - i,
        {
            let q: String = text::trim_text(data.settings[i].setup_question.as_str());
            assert(all.skip(i as int)[0] == data.settings@[i as int]@);
            assert(all.skip(i as int).drop_first() =~= all.skip(i + 1));
            if text::text_eq(q.as_str(), want.as_str()) {
                return Some(i);
            }
            i += 1;
        }
        None
    }

    /// Shows the whole list again.
    pub fn reset_filters(&mut self)
        ensures
            final(self)@ == (EditorView {
                list_filter_kind: ListFilterKind::All,
                show_only_changed: false,
                ..old(self)@
            }),
    {
        self.list_filter_kind = ListFilterKind::All;
        self.show_only_changed = false;
    }
}

// ---------------------------------------------------------------------------
// Opening and selecting
// ---------------------------------------------------------------------------

/// `v` with an empty value field.
pub open spec fn emptied(v: EditorView) -> EditorView {
    EditorView {
        value_edit_buffer: seq![],
        value_outer_prefix: seq![],
        value_outer_suffix: seq![],
        ..v
    }
}

/// `v` with the value of `s` in the value field, angle brackets apart.
pub open spec fn showing(v: EditorView, s: SettingView) -> EditorView {
    let raw = match s.value {
        Some(t) => t,
        None => seq![],
    };
    if s.options.len() > 0 {
        emptied(v)
    } else {
        match validation::angle_value(raw) {
            Some(inner) => EditorView {
                value_edit_buffer: inner,
                value_outer_prefix: "<"@,
                value_outer_suffix: ">"@,
                ..v
            },
            None => EditorView { value_edit_buffer: raw, ..emptied(v) },
        }
    }
}

/// `v` with the value field set to the setting that is selected.
pub open spec fn synced(v: EditorView) -> EditorView {
    match (v.data, v.selected) {
        (Some(d), Some(i)) => {
            let w = if 0 <= i < d.settings.len() {
                showing(v, d.settings[i])
            } else {
                v
            };
            EditorView { value_edit_baseline: w.value_edit_buffer, ..w }
        },
        _ => emptied(v),
    }
}

/// `v` with setting `i` selected.
pub open spec fn with_selected(v: EditorView, i: int) -> EditorView {
    synced(EditorView { selected: Some(i), ..v })
}

/// `v` after a dump was loaded.
pub open spec fn opened(v: EditorView, loaded: NvramView, path_text: Seq<char>) -> EditorView {
    let w = synced(
        EditorView {
            selected: if loaded.settings.len() == 0 {
                None
            } else {
                Some(0)
            },
            original_settings: loaded.settings,
            data: Some(loaded),
            change_log: seq![],
            change_seq: 0,
            ..v
        },
    );
    reported(EditorView { dirty: false, ..w }, true, "Loaded: "@ + path_text)
}

/// A file that was read: its path, the path for display, and the bytes or what went wrong.
pub struct FileRead {
    pub path: Vec<String>,
    pub path_text: String,
    pub content: Result<Vec<u8>, String>,
}

/// `v` after an attempt to open a file.
pub open spec fn after_open(v: EditorView, file: FileRead) -> EditorView {
    match file.content {
        Ok(bytes) => opened(
            v,
            nvram::read_text(codec::file_text(bytes@), Some(text::texts(file.path@))),
            file.path_text@,
        ),
        Err(e) => reported(v, false, "Failed to open: "@ + e@),
    }
}

/// A file that the decoder can take: its text has to fit in memory, with room to spare.
pub open spec fn readable(file: FileRead) -> bool {
    file.content matches Ok(bytes) ==> bytes@.len() <= isize::MAX / 8
}

impl Editor {
    /// Sets the value field to the setting that is selected.
    pub fn sync_value_buffer(&mut self)
        ensures
            final(self)@ == synced(old(self)@),
    {
        let ghost v = self@;
        let mut prefix: String = String::new();
        let mut suffix: String = String::new();
        let mut buffer: String = String::new();
        match (&self.data, self.selected) {
            (Some(data), Some(i)) => {
                if i < data.settings.len() {
                    let s: &BiosSetting = &data.settings[i];
                    assert(s@.options.len() == s.options@.len());
                    if s.options.len() == 0 {
                        let raw: String = match &s.value {
                            Some(t) => t.clone(),
                            None => String::new(),
                        };
                        match validation::extract_angle_value(raw.as_str()) {
                            Some(inner) => {
                                prefix = "<".to_owned();
                                suffix = ">".to_owned();
                                buffer = inner.to_owned();
                            },
                            None => {
                                buffer = raw.clone();
                            },
                        }
                    }
                    self.value_outer_prefix = prefix;
                    self.value_outer_suffix = suffix;
                    self.value_edit_buffer = buffer;
                }
                self.value_edit_baseline = self.value_edit_buffer.clone();
            },
            _ => {
                self.value_outer_prefix = prefix;
                self.value_outer_suffix = suffix;
                self.value_edit_buffer = buffer;
            },
        }
        assert(self@ =~= synced(v));
    }

    /// Selects setting `i`.
    pub fn select(&mut self, i: usize)
        ensures
            final(self)@ == with_selected(old(self)@, i as int),
    {
        self.selected = Some(i);
        self.sync_value_buffer();
    }

    /// Selects the setting that an entry of the history speaks of; whether there is one.
    pub fn jump_to(&mut self, setting: &str, token: &str, offset: &str) -> (r: bool)
        ensures
            match setting_index(old(self)@, token@, offset@, setting@) {
                Some(i) => r && final(self)@ == with_selected(old(self)@, i),
                None => !r && final(self)@ == old(self)@,
            },
    {
        match self.find_setting_index(token, offset, setting) {
            Some(i) => {
                self.select(i);
                true
            },
            None => false,
        }
    }

    /// Takes over a file that was read: the dump in it replaces the one that was loaded, or the
    /// message says what went wrong.
    pub fn open_file(&mut self, file: FileRead)
        requires
            readable(file),
        ensures
            final(self)@ == after_open(old(self)@, file),
    {
        let ghost v = self@;
        match file.content {
            Ok(bytes) => {
                let loaded: LoadedNvram = nvram::load_nvram(&file.path, &bytes);
                let ghost l = loaded@;
                assert(l.settings.len() == loaded.settings@.len());
                self.selected = if loaded.settings.len() == 0 {
                    None
                } else {
                    Some(0)
                };
                self.original_settings = nvram::duplicate_settings(&loaded.settings);
                self.data = Some(loaded);
                self.change_log.clear();
                self.change_seq = 0;
                assert(entry_views(self.change_log@) =~= seq![]);
                self.sync_value_buffer();
                self.dirty = false;
                self.report(true, "Loaded: ".to_owned().concat(file.path_text.as_str()));
            },
            Err(e) => {
                self.report(false, "Failed to open: ".to_owned().concat(e.as_str()));
            },
        }
    }
}

// ---------------------------------------------------------------------------
// Presets
// ---------------------------------------------------------------------------

/// `v` with other settings in the dump that is loaded.
pub open spec fn with_settings(v: EditorView, settings: Seq<SettingView>) -> EditorView {
    match v.data {
        Some(d) => EditorView { data: Some(NvramView { settings, ..d }), ..v },
        None => v,
    }
}

/// The first errors, two at most.
pub open spec fn first_errors(errors: Seq<Seq<char>>) -> Seq<Seq<char>> {
    if errors.len() > 2 {
        errors.take(2)
    } else {
        errors
    }
}

/// The message about presets that were applied.
pub open spec fn preset_message(a: presets::Applied) -> Seq<char> {
    "Presets applied: "@ + text::decimal(a.applied) + ", unchanged: "@ + text::decimal(a.unchanged)
        + "."@ + (if a.applied == 0 && a.unchanged > 0 {
        " All matching settings were already at that option."@
    } else {
        ""@
    }) + (if a.errors.len() > 0 {
        " Errors: "@ + text::join(first_errors(a.errors), " | "@)
    } else {
        ""@
    })
}

/// `v` after the presets in the input were applied.
pub open spec fn presets_applied(v: EditorView) -> EditorView {
    let parsed = presets::parsed_input(v.preset_input);
    if parsed.len() == 0 {
        reported(
            v,
            false,
            "No valid preset lines. Use: Setting [Option] or Setting = Option"@,
        )
    } else if v.data is None {
        reported(v, false, "Load nvram.txt before applying presets."@)
    } else {
        let after = presets::apply_all(presets::unapplied(loaded_settings(v)), parsed);
        let w = all_logged(with_settings(v, after.settings), after.logs);
        let u = if after.applied > 0 {
            synced(EditorView { dirty: true, ..w })
        } else {
            w
        };
        reported(u, after.errors.len() == 0, preset_message(after))
    }
}

/// The message about presets that were applied.
fn preset_message_text(out: &presets::PresetApplyOutcome) -> (r: String)
    ensures
        forall|a: presets::Applied|
            a.applied == out.applied && a.unchanged == out.unchanged && a.errors == text::texts(
                out.errors@,
            ) ==> r@ == #[trigger] preset_message(a),
{
    let applied: String = text::to_text(&text::numeral_chars(out.applied as u64, 10));
    let unchanged: String = text::to_text(&text::numeral_chars(out.unchanged as u64, 10));
    let note: String = if out.applied == 0 && out.unchanged > 0 {
        " All matching settings were already at that option.".to_owned()
    } else {
        "".to_owned()
    };
    assert(text::texts(out.errors@).len() == out.errors@.len());
    let errors: String = if out.errors.len() > 0 {
        let mut few: Vec<String> = text::clone_strings(&out.errors);
        assert(text::texts(few@).len() == few@.len());
        if few.len() > 2 {
            let ghost all = few@;
            few.truncate(2);
            assert(text::texts(few@) =~= text::texts(all).take(2));
        }
        " Errors: ".to_owned().concat(text::join_strings(&few, " | ").as_str())
    } else {
        "".to_owned()
    };
    "Presets applied: ".to_owned().concat(applied.as_str()).concat(", unchanged: ").concat(
        unchanged.as_str(),
    ).concat(".").concat(note.as_str()).concat(errors.as_str())
}

impl Editor {
    /// Puts rows on top of the history, one after the other.
    fn push_rows(&mut self, rows: &Vec<(String, String, String, String)>)
        ensures
            final(self)@ == all_logged(old(self)@, presets::log_rows(rows@)),
    {
        let ghost all = presets::log_rows(rows@);
        let mut i: usize = 0;
        while i < rows.len()
            invariant
                i <= rows.len(),
                all == presets::log_rows(rows@),
                self@ == all_logged(old(self)@, all.take(i as int)),
            decreases rows.len() - i,
        {
            proof {
                assert(all.take(i + 1).drop_last() =~= all.take(i as int));
                assert(all.take(i + 1).last() =~= all[i as int]);
            }
            self.push_change_log(
                rows[i].0.as_str(),
                rows[i].1.as_str(),
                rows[i].2.as_str(),
                rows[i].3.clone(),
            );
            i += 1;
        }
        assert(all.take(all.len() as int) =~= all);
    }

    /// Applies the presets in the input, and reports what came of them.
    pub fn apply_presets_from_input(&mut self)
        ensures
            final(self)@ == presets_applied(old(self)@),
    {
        let ghost v = self@;
        let parsed: Vec<(usize, String, String)> = presets::parse_preset_input_lines(
            self.preset_input.as_str(),
        );
        assert(presets::preset_views(parsed@).len() == parsed@.len());
        if parsed.len() == 0 {
            self.report(
                false,
                "No valid preset lines. Use: Setting [Option] or Setting = Option".to_owned(),
            );
            return;
        }
        let mut data: LoadedNvram = match self.data.take() {
            Some(d) => d,
            None => {
                self.report(false, "Load nvram.txt before applying presets.".to_owned());
                return;
            },
        };
        let ghost d = data@;
        let outcome: presets::PresetApplyOutcome = presets::apply_presets_to_settings(
            &mut data.settings,
            &parsed,
        );
        let ghost after = presets::apply_all(
            presets::unapplied(d.settings),
            presets::preset_views(parsed@),
        );
        assert(presets::outcome_view(data.settings@, outcome) == after);
        assert(data@ =~= (NvramView { settings: after.settings, ..d }));
        self.data = Some(data);
        assert(self@ =~= with_settings(v, after.settings));
        self.push_rows(&outcome.logs);
        if outcome.applied > 0 {
            self.dirty = true;
            self.sync_value_buffer();
        }
        let message: String = preset_message_text(&outcome);
        assert(message@ == preset_message(after));
        assert(after.errors.len() == outcome.errors@.len());
        self.report(outcome.errors.len() == 0, message);
    }
}

// ---------------------------------------------------------------------------
// Editing
// ---------------------------------------------------------------------------

/// The option that the list of options shows as selected: the active one, or the first.
pub open spec fn shown_option(s: SettingView) -> int {
    let i = match s.active_option {
        Some(i) => i,
        None => 0,
    };
    if i < s.options.len() {
        i
    } else {
        s.options.len() - 1
    }
}

/// The rows for the changes of a plan, in order.
pub open spec fn plan_rows(settings: Seq<SettingView>, plan: Seq<(int, int)>) -> Seq<LogRow> {
    Seq::new(
        plan.len(),
        |i: int|
            {
                let (j, t) = plan[i];
                presets::log_row(
                    settings[j],
                    change_format::change(
                        presets::shown_choice(settings[j]),
                        nvram::pretty(settings[j].options[t]),
                    ),
                )
            },
    )
}

/// `v` after option `sel` of setting `i` was chosen: every setting of that name follows.
pub open spec fn chosen(v: EditorView, i: int, sel: int) -> EditorView {
    let settings = loaded_settings(v);
    let s = settings[i];
    if s.active_option == Some(sel) {
        v
    } else {
        let plan = presets::sync_plan(settings, text::trim(s.setup_question), sel, s.options);
        let w = all_logged(
            with_settings(v, presets::with_choices(settings, plan)),
            plan_rows(settings, plan),
        );
        EditorView { dirty: true, ..w }
    }
}

/// The value that the value field stands for.
pub open spec fn field_value(v: EditorView) -> Seq<char> {
    v.value_outer_prefix + v.value_edit_buffer + v.value_outer_suffix
}

/// The value that the value field stood for.
pub open spec fn baseline_value(v: EditorView) -> Seq<char> {
    v.value_outer_prefix + v.value_edit_baseline + v.value_outer_suffix
}

/// `v` after the text in the value field of setting `i` was changed.
pub open spec fn value_edited(v: EditorView, i: int) -> EditorView {
    let settings = loaded_settings(v);
    let w = with_settings(
        v,
        settings.update(i, SettingView { value: Some(field_value(v)), ..settings[i] }),
    );
    EditorView { dirty: true, ..w }
}

/// `v` after the value field of setting `i` was left.
pub open spec fn value_left(v: EditorView, i: int) -> EditorView {
    if v.value_edit_buffer == v.value_edit_baseline {
        v
    } else {
        let w = logged(
            v,
            presets::log_row(
                loaded_settings(v)[i],
                change_format::change(baseline_value(v), field_value(v)),
            ),
        );
        EditorView { value_edit_baseline: w.value_edit_buffer, ..w }
    }
}

/// What a setting is set to, for display.
pub open spec fn shown_value(s: SettingView) -> Seq<char> {
    if s.options.len() > 0 {
        match s.active_option {
            Some(i) if 0 <= i < s.options.len() => nvram::pretty(s.options[i]),
            _ => nvram::current_text(s),
        }
    } else {
        match s.value {
            Some(t) => t,
            None => seq![],
        }
    }
}

/// What a setting is set to, for display.
pub fn current_value_label(s: &BiosSetting) -> (r: String)
    ensures
        r@ == shown_value(s@),
{
    assert(s@.options.len() == s.options@.len());
    if s.options.len() > 0 {
        if let Some(i) = s.active_option {
            if i < s.options.len() {
                return nvram::option_pretty(s.options[i].as_str());
            }
        }
        return s.display_current();
    }
    match &s.value {
        Some(t) => t.clone(),
        None => String::new(),
    }
}

/// The option that the list of options shows as selected.
pub fn shown_selection(s: &BiosSetting) -> (r: usize)
    requires
        s.options@.len() > 0,
    ensures
        r == shown_option(s@),
        r < s.options@.len(),
{
    let i: usize = match s.active_option {
        Some(i) => i,
        None => 0,
    };
    if i < s.options.len() {
        i
    } else {
        s.options.len() - 1
    }
}

/// The rows for the changes of a plan.
fn rows_of_plan(settings: &[BiosSetting], plan: &[(usize, usize)]) -> (r: Vec<
    (String, String, String, String),
>)
    requires
        forall|i: int|
            0 <= i < plan@.len() ==> (#[trigger] plan@[i]).0 < settings@.len() && plan@[i].1
                < settings@[plan@[i].0 as int].options@.len(),
    ensures
        presets::log_rows(r@) == plan_rows(
            nvram::setting_views(settings@),
            presets::plan_view(plan@),
        ),
{
    let ghost all = plan_rows(nvram::setting_views(settings@), presets::plan_view(plan@));
    let mut r: Vec<(String, String, String, String)> = Vec::new();
    let mut i: usize = 0;
    while i < plan.len()
        invariant
            i <= plan.len(),
            forall|i: int|
                0 <= i < plan@.len() ==> (#[trigger] plan@[i]).0 < settings@.len() && plan@[i].1
                    < settings@[plan@[i].0 as int].options@.len(),
            all == plan_rows(nvram::setting_views(settings@), presets::plan_view(plan@)),
            presets::log_rows(r@) == all.take(i as int),
        decreases plan.len() - i,
    {
        let ghost before = r@;
        let (j, t): (usize, usize) = plan[i];
        assert(plan@[i as int].0 < settings@.len());
        let s: &BiosSetting = &settings[j];
        let old_shown: String = presets::show_choice(s);
        let new_shown: String = nvram::option_pretty(s.options[t].as_str());
        let summary: String = change_format::change_summary(
            old_shown.as_str(),
            new_shown.as_str(),
        );
        r.push((s.setup_question.clone(), s.token.clone(), s.offset.clone(), summary));
        proof {
            assert(text::texts(s.options@)[t as int] == s.options@[t as int]@);
            assert(presets::log_rows(r@) =~= presets::log_rows(before).push(
                presets::log_row(s@, summary@),
            ));
            assert(all[i as int] == presets::log_row(s@, summary@));
            assert(presets::log_rows(r@) =~= all.take(i + 1));
        }
        i += 1;
    }
    assert(all.take(all.len() as int) =~= all);
    r
}

/// Selects the options of a plan.
fn select_options(settings: &mut Vec<BiosSetting>, plan: &[(usize, usize)])
    requires
        forall|i: int|
            0 <= i < plan@.len() ==> (#[trigger] plan@[i]).0 < old(settings)@.len(),
    ensures
        nvram::setting_views(final(settings)@) == presets::with_choices(
            nvram::setting_views(old(settings)@),
            presets::plan_view(plan@),
        ),
{
    let ghost v = nvram::setting_views(settings@);
    let ghost all = presets::plan_view(plan@);
    let mut i: usize = 0;
    while i < plan.len()
        invariant
            i <= plan.len(),
            all == presets::plan_view(plan@),
            settings@.len() == old(settings)@.len(),
            forall|i: int|
                0 <= i < plan@.len() ==> (#[trigger] plan@[i]).0 < settings@.len(),
            nvram::setting_views(settings@) == presets::with_choices(v, all.take(i as int)),
        decreases plan.len() - i,
    {
        let ghost before = nvram::setting_views(settings@);
        let (j, t): (usize, usize) = plan[i];
        assert(plan@[i as int].0 < settings@.len());
        settings[j].active_option = Some(t);
        proof {
            assert(all.take(i + 1).drop_last() =~= all.take(i as int));
            assert(all.take(i + 1).last() == (j as int, t as int));
            assert(settings@[j as int]@ =~= presets::with_choice(before[j as int], t as int));
            assert(nvram::setting_views(settings@) =~= before.update(
                j as int,
                presets::with_choice(before[j as int], t as int),
            ));
        }
        i += 1;
    }
    assert(all.take(all.len() as int) =~= all);
}

impl Editor {
    /// Chooses option `sel` of setting `i`, and of every setting of that name.
    pub fn choose_option(&mut self, i: usize, sel: usize)
        requires
            old(self).data is Some,
            i < (old(self).data->0).settings@.len(),
            sel < (old(self).data->0).settings@[i as int].options@.len(),
        ensures
            final(self)@ == chosen(old(self)@, i as int, sel as int),
    {
        let ghost v = self@;
        if let Some(mut data) = self.data.take() {
            let ghost d = data@;
            let ghost s = d.settings[i as int];
            assert(s == data.settings@[i as int]@);
            let already: bool = match data.settings[i].active_option {
                Some(a) => a == sel,
                None => false,
            };
            if already {
                self.data = Some(data);
                assert(self@ =~= v);
                return;
            }
            let name: String = text::trim_text(data.settings[i].setup_question.as_str());
            let plan: Vec<(usize, usize)> = presets::duplicate_name_option_sync_plan(
                &data,
                name.as_str(),
                sel,
                &data.settings[i].options,
            );
            let ghost p = presets::sync_plan(d.settings, name@, sel as int, s.options);
            proof {
                assert(presets::plan_view(plan@) == p);
                assert(p.len() == plan@.len());
                presets::law_plan_is_sound(d.settings, name@, sel as int, s.options);
                assert forall|k: int| 0 <= k < plan@.len() implies (#[trigger] plan@[k]).0
                    < data.settings@.len() && plan@[k].1
                    < data.settings@[plan@[k].0 as int].options@.len() by {
                    assert(p[k] == (plan@[k].0 as int, plan@[k].1 as int));
                }
            }
            let rows: Vec<(String, String, String, String)> = rows_of_plan(&data.settings, &plan);
            select_options(&mut data.settings, &plan);
            assert(data@ =~= (NvramView {
                settings: presets::with_choices(d.settings, p),
                ..d
            }));
            self.data = Some(data);
            assert(self@ =~= with_settings(v, presets::with_choices(d.settings, p)));
            self.push_rows(&rows);
            self.dirty = true;
            assert(self@ =~= chosen(v, i as int, sel as int));
        }
    }

    /// Takes the value of setting `i` from the value field.
    pub fn edit_value(&mut self, i: usize)
        requires
            old(self).data is Some,
            i < (old(self).data->0).settings@.len(),
        ensures
            final(self)@ == value_edited(old(self)@, i as int),
    {
        let ghost v = self@;
        if let Some(mut data) = self.data.take() {
            let ghost d = data@;
            let value: String = self.value_outer_prefix.clone().concat(
                self.value_edit_buffer.as_str(),
            ).concat(self.value_outer_suffix.as_str());
            let ghost text = value@;
            data.settings[i].value = Some(value);
            proof {
                let s = SettingView { value: Some(text), ..d.settings[i as int] };
                assert(data.settings@[i as int]@ =~= s);
                assert(nvram::setting_views(data.settings@) =~= d.settings.update(i as int, s));
                assert(data@ =~= (NvramView { settings: d.settings.update(i as int, s), ..d }));
            }
            self.data = Some(data);
            self.dirty = true;
            assert(self@ =~= value_edited(v, i as int));
        }
    }

    /// The value field of setting `i` is left: a change of its text goes into the history.
    pub fn leave_value(&mut self, i: usize)
        requires
            old(self).data is Some,
            i < (old(self).data->0).settings@.len(),
        ensures
            final(self)@ == value_left(old(self)@, i as int),
    {
        let ghost v = self@;
        if text::text_eq(self.value_edit_buffer.as_str(), self.value_edit_baseline.as_str()) {
            return;
        }
        let old_value: String = self.value_outer_prefix.clone().concat(
            self.value_edit_baseline.as_str(),
        ).concat(self.value_outer_suffix.as_str());
        let new_value: String = self.value_outer_prefix.clone().concat(
            self.value_edit_buffer.as_str(),
        ).concat(self.value_outer_suffix.as_str());
        let summary: String = change_format::change_summary(
            old_value.as_str(),
            new_value.as_str(),
        );
        let s: BiosSetting = match &self.data {
            Some(data) => data.settings[i].duplicate(),
            None => return,
        };
        assert(s@ == loaded_settings(v)[i as int]);
        self.push_change_log(
            s.setup_question.as_str(),
            s.token.as_str(),
            s.offset.as_str(),
            summary,
        );
        self.value_edit_baseline = self.value_edit_buffer.clone();
        assert(self@ =~= value_left(v, i as int));
    }
}

// ---------------------------------------------------------------------------
// Saving
// ---------------------------------------------------------------------------

/// What is to be written: the bytes, or why nothing is.
pub open spec fn save_bytes(v: EditorView, nothing: Seq<char>) -> Result<Seq<u8>, Seq<char>> {
    match v.data {
        None => Err(nothing),
        Some(d) => match validation::first_fault(d.settings, v.original_settings) {
            Some(m) => Err(m),
            None => Ok(
                codec::encoded_lines(nvram::patched_lines(d.original_lines, d.settings)),
            ),
        },
    }
}

/// Where SCEWIN expects the dump, if SCEWIN was found.
pub open spec fn dump_path(v: EditorView) -> Option<Seq<Seq<char>>> {
    match v.scewin_work {
        Some(w) => Some(w.push("nvram.txt"@)),
        None => None,
    }
}

/// What is to be written for SCEWIN, and where: or why nothing is.
pub open spec fn scewin_save(v: EditorView) -> Result<(Seq<Seq<char>>, Seq<u8>), Seq<char>> {
    match save_bytes(v, "Nothing to save."@) {
        Err(m) => Err(m),
        Ok(bytes) => match dump_path(v) {
            Some(path) => Ok((path, bytes)),
            None => Err("SCEWIN folder not found next to the application."@),
        },
    }
}

/// `v` after the dump was written to `path`.
pub open spec fn saved(
    v: EditorView,
    path: Seq<Seq<char>>,
    message: Seq<char>,
) -> EditorView {
    let w = EditorView {
        data: match v.data {
            Some(d) => Some(NvramView { path: Some(path), ..d }),
            None => None,
        },
        dirty: false,
        ..v
    };
    reported(w, true, message)
}

/// A file to be written.
pub struct SaveRequest {
    pub path: Vec<String>,
    pub bytes: Vec<u8>,
}

impl Editor {
    /// The bytes to be written, if there is a dump and its values are valid.
    fn bytes_to_save(&self, nothing: &str) -> (r: Result<Vec<u8>, String>)
        ensures
            match r {
                Ok(bytes) => save_bytes(self@, nothing@) == Ok::<Seq<u8>, Seq<char>>(bytes@),
                Err(m) => save_bytes(self@, nothing@) == Err::<Seq<u8>, Seq<char>>(m@),
            },
    {
        let data: &LoadedNvram = match &self.data {
            Some(d) => d,
            None => return Err(nothing.to_owned()),
        };
        match validation::validate_all_settings(&data.settings, &self.original_settings) {
            Err(m) => Err(m),
            Ok(_) => Ok(nvram::save_nvram(&data.original_lines, &data.settings)),
        }
    }

    /// The dump in SCEWIN's directory.
    pub fn scewin_nvram_path(&self) -> (r: Option<Vec<String>>)
        ensures
            nvram::optional_texts(r) == dump_path(self@),
    {
        match &self.scewin_work {
            Some(w) => Some(scewin::nvram_path_in_work(w)),
            None => None,
        }
    }

    /// Whether the dump that is loaded is the one in SCEWIN's directory.
    pub fn is_loaded_from_scewin_nvram(&self) -> (r: bool)
        ensures
            r == (self@.data matches Some(d) && d.path is Some && d.path == dump_path(self@)),
    {
        let data: &LoadedNvram = match &self.data {
            Some(d) => d,
            None => return false,
        };
        match (&data.path, self.scewin_nvram_path()) {
            (Some(p), Some(want)) => text::strings_eq(p, &want),
            _ => false,
        }
    }

    /// What to write to a file of the user's choice; none if there is nothing to write or a value
    /// is not valid, which is then reported.
    pub fn save_as(&mut self) -> (r: Option<Vec<u8>>)
        ensures
            match save_bytes(old(self)@, "No file loaded."@) {
                Ok(bytes) => r is Some && (r->0)@ == bytes && final(self)@ == old(self)@,
                Err(m) => r is None && final(self)@ == reported(old(self)@, false, m),
            },
    {
        match self.bytes_to_save("No file loaded.") {
            Ok(bytes) => Some(bytes),
            Err(m) => {
                self.report(false, m);
                None
            },
        }
    }

    /// Takes note of the file of the user's choice that was written, or of what went wrong.
    pub fn save_as_done(&mut self, path: Vec<String>, path_text: &str, result: Result<(), String>)
        ensures
            final(self)@ == (match result {
                Ok(_) => saved(old(self)@, text::texts(path@), "Saved: "@ + path_text@),
                Err(e) => reported(old(self)@, false, "Failed to save: "@ + e@),
            }),
    {
        match result {
            Ok(_) => {
                self.note_saved(path, "Saved: ".to_owned().concat(path_text));
            },
            Err(e) => {
                self.report(false, "Failed to save: ".to_owned().concat(e.as_str()));
            },
        }
    }

    /// Takes note of a file that was written.
    fn note_saved(&mut self, path: Vec<String>, message: String)
        ensures
            final(self)@ == saved(old(self)@, text::texts(path@), message@),
    {
        let ghost v = self@;
        let ghost p = text::texts(path@);
        if let Some(mut data) = self.data.take() {
            let ghost d = data@;
            data.path = Some(path);
            assert(data@ =~= (NvramView { path: Some(p), ..d }));
            self.data = Some(data);
        }
        self.dirty = false;
        self.report(true, message);
        assert(self@ =~= saved(v, p, message@));
    }

    /// What to write to SCEWIN's directory; none if there is nothing to write, a value is not
    /// valid or SCEWIN was not found, which is then reported.
    pub fn save_to_scewin_folder(&mut self) -> (r: Option<SaveRequest>)
        ensures
            match scewin_save(old(self)@) {
                Ok(p) => {
                    &&& r is Some
                    &&& text::texts((r->0).path@) == p.0
                    &&& (r->0).bytes@ == p.1
                    &&& final(self)@ == old(self)@
                },
                Err(m) => r is None && final(self)@ == reported(old(self)@, false, m),
            },
    {
        match self.bytes_to_save("Nothing to save.") {
            Ok(bytes) => {
                match self.scewin_nvram_path() {
                    Some(path) => Some(SaveRequest { path, bytes }),
                    None => {
                        self.report(
                            false,
                            "SCEWIN folder not found next to the application.".to_owned(),
                        );
                        None
                    },
                }
            },
            Err(m) => {
                self.report(false, m);
                None
            },
        }
    }

    /// Takes note of the dump that was written to SCEWIN's directory, or of what went wrong;
    /// whether it was written.
    pub fn scewin_save_done(
        &mut self,
        path: Vec<String>,
        path_text: &str,
        result: Result<(), String>,
    ) -> (r: bool)
        ensures
            r == (result is Ok),
            final(self)@ == (match result {
                Ok(_) => saved(old(self)@, text::texts(path@), "Saved to "@ + path_text@),
                Err(e) => reported(
                    old(self)@,
                    false,
                    "Failed to save to SCEWIN folder: "@ + e@,
                ),
            }),
    {
        match result {
            Ok(_) => {
                self.note_saved(path, "Saved to ".to_owned().concat(path_text));
                true
            },
            Err(e) => {
                self.report(
                    false,
                    "Failed to save to SCEWIN folder: ".to_owned().concat(e.as_str()),
                );
                false
            },
        }
    }
}

// ---------------------------------------------------------------------------
// SCEWIN
// ---------------------------------------------------------------------------

/// `v` while SCEWIN is running.
pub open spec fn running(v: EditorView, message: Seq<char>) -> EditorView {
    reported(EditorView { busy: true, ..v }, true, message)
}

/// `v` after SCEWIN ended, with a message that also pops up.
pub open spec fn ended(
    v: EditorView,
    ok: bool,
    message: Seq<char>,
    toast: Seq<char>,
) -> EditorView {
    EditorView {
        busy: false,
        status: Some((ok, message)),
        center_toast: Some((ok, toast)),
        ..v
    }
}

/// `n` in decimal, with a sign if it is negative.
pub open spec fn signed_decimal(n: int) -> Seq<char> {
    if n < 0 {
        "-"@ + text::decimal((-n) as nat)
    } else {
        text::decimal(n as nat)
    }
}

/// The exit code that messages speak of.
pub open spec fn told_code(code: Option<i32>) -> int {
    match code {
        Some(c) => c as int,
        None => -1,
    }
}

/// The message about an export that ended with this code.
pub open spec fn export_message(code: Option<i32>) -> Seq<char> {
    if code == Some(0i32) {
        "Export finished. BIOS settings saved to nvram.txt in the SCEWIN folder."@
    } else {
        "Export failed (code "@ + signed_decimal(told_code(code))
            + "). Approve UAC if nothing changed."@
    }
}

/// The two lines of the message about an import that ended with this code.
pub open spec fn import_message(code: Option<i32>) -> (Seq<char>, Seq<char>) {
    if code == Some(0i32) {
        ("Settings imported successfully."@, "Check BIOS / reboot if required."@)
    } else if code == Some(13i32) {
        (
            "Import failed (code 13): access/driver issue."@,
            "Check amifldrv64.sys + amigendrv64.sys and Windows security."@,
        )
    } else {
        (
            "Import failed (code "@ + signed_decimal(told_code(code)) + ")."@,
            "See log-file.txt in the SCEWIN folder."@,
        )
    }
}

/// `v` after an export ended, with the dump that was found afterwards.
pub open spec fn export_ended(
    v: EditorView,
    result: Result<Option<i32>, String>,
    dump: Option<FileRead>,
) -> EditorView {
    match result {
        Ok(code) => {
            let w = match dump {
                Some(file) => after_open(v, file),
                None => v,
            };
            ended(w, code == Some(0i32), export_message(code), export_message(code))
        },
        Err(e) => ended(
            v,
            false,
            "Failed to start SCEWIN: "@ + e@,
            "Failed to start SCEWIN: "@ + e@,
        ),
    }
}

/// `v` after an import ended.
pub open spec fn import_ended(v: EditorView, result: Result<Option<i32>, String>) -> EditorView {
    match result {
        Ok(code) => {
            let (first, second) = import_message(code);
            ended(
                v,
                code == Some(0i32),
                first + " "@ + second,
                first + "\n"@ + second,
            )
        },
        Err(e) => ended(
            v,
            false,
            "Failed to start Import: "@ + e@,
            "Failed to start Import: "@ + e@,
        ),
    }
}

/// `n` in decimal, with a sign if it is negative.
fn signed_text(n: i32) -> (r: String)
    ensures
        r@ == signed_decimal(n as int),
{
    let wide: i64 = n as i64;
    if wide < 0 {
        "-".to_owned().concat(
            text::to_text(&text::numeral_chars((0 - wide) as u64, 10)).as_str(),
        )
    } else {
        text::to_text(&text::numeral_chars(wide as u64, 10))
    }
}

/// Whether the exit code is `n`.
fn is_code(code: Option<i32>, n: i32) -> (r: bool)
    ensures
        r == (code == Some(n)),
{
    match code {
        Some(c) => c == n,
        None => false,
    }
}

/// The exit code that messages speak of.
fn code_text(code: Option<i32>) -> (r: String)
    ensures
        r@ == signed_decimal(told_code(code)),
{
    match code {
        Some(c) => signed_text(c),
        None => signed_text(-1),
    }
}

impl Editor {
    /// Whether SCEWIN is running.
    pub fn is_busy(&self) -> (r: bool)
        ensures
            r == self@.busy,
    {
        self.busy
    }

    /// Starts an export: the directory to run SCEWIN in, unless it is running already or was not
    /// found.
    pub fn run_export(&mut self) -> (r: Option<Vec<String>>)
        ensures
            nvram::optional_texts(r) == (if old(self)@.busy {
                None
            } else {
                old(self)@.scewin_work
            }),
            final(self)@ == (if old(self)@.busy {
                old(self)@
            } else if old(self)@.scewin_work is None {
                reported(
                    old(self)@,
                    false,
                    "SCEWIN not available: add the SCEWIN folder next to nvram_editor.exe, or use a build compiled with SCEWIN/ embedded."@,
                )
            } else {
                running(old(self)@, "Export in progress... approve UAC if prompted."@)
            }),
    {
        if self.busy {
            return None;
        }
        let work: Vec<String> = match &self.scewin_work {
            Some(w) => text::clone_strings(w),
            None => {
                self.report(
                    false,
                    "SCEWIN not available: add the SCEWIN folder next to nvram_editor.exe, or use a build compiled with SCEWIN/ embedded.".to_owned(),
                );
                return None;
            },
        };
        self.busy = true;
        self.report(true, "Export in progress... approve UAC if prompted.".to_owned());
        Some(work)
    }

    /// Prepares an import: what to write to SCEWIN's directory first, unless SCEWIN is running
    /// already or something is missing.
    pub fn run_import(&mut self) -> (r: Option<SaveRequest>)
        ensures
            ({
                let v = old(self)@;
                if v.busy {
                    r is None && final(self)@ == v
                } else if v.scewin_work is None {
                    r is None && final(self)@ == reported(
                        v,
                        false,
                        "SCEWIN folder not found next to the application."@,
                    )
                } else if v.data is None {
                    r is None && final(self)@ == reported(
                        v,
                        false,
                        "Open or create nvram.txt before Import (or run Export first)."@,
                    )
                } else {
                    match scewin_save(v) {
                        Ok(p) => {
                            &&& r is Some
                            &&& text::texts((r->0).path@) == p.0
                            &&& (r->0).bytes@ == p.1
                            &&& final(self)@ == v
                        },
                        Err(m) => r is None && final(self)@ == reported(v, false, m),
                    }
                }
            }),
    {
        if self.busy {
            return None;
        }
        if self.scewin_work.is_none() {
            self.report(false, "SCEWIN folder not found next to the application.".to_owned());
            return None;
        }
        if self.data.is_none() {
            self.report(
                false,
                "Open or create nvram.txt before Import (or run Export first).".to_owned(),
            );
            return None;
        }
        self.save_to_scewin_folder()
    }

    /// Goes on with an import once the dump was written, or failed to be: the directory to run
    /// SCEWIN in, if it is to be run.
    pub fn import_saved(
        &mut self,
        path: Vec<String>,
        path_text: &str,
        result: Result<(), String>,
    ) -> (r: Option<Vec<String>>)
        ensures
            final(self)@ == (match result {
                Ok(_) => running(
                    saved(old(self)@, text::texts(path@), "Saved to "@ + path_text@),
                    "Import in progress... approve UAC if prompted."@,
                ),
                Err(e) => reported(
                    old(self)@,
                    false,
                    "Failed to save to SCEWIN folder: "@ + e@,
                ),
            }),
            nvram::optional_texts(r) == (if result is Ok {
                old(self)@.scewin_work
            } else {
                None
            }),
    {
        if !self.scewin_save_done(path, path_text, result) {
            return None;
        }
        self.busy = true;
        self.report(true, "Import in progress... approve UAC if prompted.".to_owned());
        match &self.scewin_work {
            Some(w) => Some(text::clone_strings(w)),
            None => None,
        }
    }

    /// Where to load the dump of SCEWIN's directory from, if SCEWIN was found.
    pub fn open_bundled_nvram(&mut self) -> (r: Option<Vec<String>>)
        ensures
            nvram::optional_texts(r) == dump_path(old(self)@),
            final(self)@ == (if old(self)@.scewin_work is None {
                reported(old(self)@, false, "SCEWIN not found."@)
            } else {
                old(self)@
            }),
    {
        let path: Option<Vec<String>> = self.scewin_nvram_path();
        if path.is_none() {
            self.report(false, "SCEWIN not found.".to_owned());
        }
        path
    }

    /// Reports that there is no dump in SCEWIN's directory.
    pub fn bundled_nvram_missing(&mut self)
        ensures
            final(self)@ == reported(
                old(self)@,
                false,
                "nvram.txt is not in the SCEWIN folder yet. Run Export first."@,
            ),
    {
        self.report(
            false,
            "nvram.txt is not in the SCEWIN folder yet. Run Export first.".to_owned(),
        );
    }

    /// Where to load a dump from at the start: once, if none is loaded and SCEWIN was found.
    pub fn autostart(&mut self) -> (r: Option<Vec<String>>)
        ensures
            nvram::optional_texts(r) == (if old(self)@.autostart_done || old(self)@.data is Some {
                None
            } else {
                dump_path(old(self)@)
            }),
            final(self)@ == (EditorView { autostart_done: true, ..old(self)@ }),
    {
        let ghost v = self@;
        let first: bool = !self.autostart_done;
        self.autostart_done = true;
        assert(self@ =~= (EditorView { autostart_done: true, ..v }));
        if first && self.data.is_none() {
            self.scewin_nvram_path()
        } else {
            None
        }
    }

    /// SCEWIN ended, with a message that also pops up.
    fn end_task(&mut self, ok: bool, message: String, toast: String)
        ensures
            final(self)@ == ended(old(self)@, ok, message@, toast@),
    {
        let ghost v = self@;
        self.busy = false;
        self.status = Some((ok, message));
        self.center_toast = Some((ok, toast));
        assert(self@ =~= ended(v, ok, message@, toast@));
    }

    /// An export ended: the dump that was found afterwards is loaded, and the outcome reported.
    pub fn finish_export(&mut self, result: Result<Option<i32>, String>, dump: Option<FileRead>)
        requires
            dump matches Some(file) ==> readable(file),
        ensures
            final(self)@ == export_ended(old(self)@, result, dump),
    {
        match result {
            Ok(code) => {
                if let Some(file) = dump {
                    self.open_file(file);
                }
                let ok: bool = is_code(code, 0);
                let message: String = if ok {
                    "Export finished. BIOS settings saved to nvram.txt in the SCEWIN folder.".to_owned()
                } else {
                    "Export failed (code ".to_owned().concat(code_text(code).as_str()).concat(
                        "). Approve UAC if nothing changed.",
                    )
                };
                let toast: String = message.clone();
                self.end_task(ok, message, toast);
            },
            Err(e) => {
                let message: String = "Failed to start SCEWIN: ".to_owned().concat(e.as_str());
                let toast: String = message.clone();
                self.end_task(false, message, toast);
            },
        }
    }

    /// An import ended: the outcome is reported.
    pub fn finish_import(&mut self, result: Result<Option<i32>, String>)
        ensures
            final(self)@ == import_ended(old(self)@, result),
    {
        match result {
            Ok(code) => {
                let ok: bool = is_code(code, 0);
                let (first, second): (String, String) = if ok {
                    (
                        "Settings imported successfully.".to_owned(),
                        "Check BIOS / reboot if required.".to_owned(),
                    )
                } else if is_code(code, 13) {
                    (
                        "Import failed (code 13): access/driver issue.".to_owned(),
                        "Check amifldrv64.sys + amigendrv64.sys and Windows security.".to_owned(),
                    )
                } else {
                    (
                        "Import failed (code ".to_owned().concat(code_text(code).as_str()).concat(
                            ").",
                        ),
                        "See log-file.txt in the SCEWIN folder.".to_owned(),
                    )
                };
                let message: String = first.clone().concat(" ").concat(second.as_str());
                let toast: String = first.concat("\n").concat(second.as_str());
                self.end_task(ok, message, toast);
            },
            Err(e) => {
                let message: String = "Failed to start Import: ".to_owned().concat(e.as_str());
                let toast: String = message.clone();
                self.end_task(false, message, toast);
            },
        }
    }

    /// Nothing was heard of SCEWIN any more.
    pub fn task_lost(&mut self)
        ensures
            final(self)@ == ended(
                old(self)@,
                false,
                "Background task failed unexpectedly."@,
                "Background task failed unexpectedly."@,
            ),
    {
        self.end_task(
            false,
            "Background task failed unexpectedly.".to_owned(),
            "Background task failed unexpectedly.".to_owned(),
        );
    }

    /// The message that popped up goes away.
    pub fn dismiss_toast(&mut self)
        ensures
            final(self)@ == (EditorView { center_toast: None, ..old(self)@ }),
    {
        self.center_toast = None;
    }

    /// Whether SCEWIN's dump can be loaded, and a word on it.
    pub fn reload_state(&self) -> (r: (bool, String))
        ensures
            ({
                let v = self@;
                let from_scewin = v.data matches Some(d) && d.path is Some && d.path == dump_path(
                    v,
                );
                &&& r.0 == (v.scewin_work is Some && !from_scewin && !v.busy)
                &&& r.1@ == (if v.scewin_work is None {
                    "SCEWIN folder not found."@
                } else if from_scewin {
                    "Already using SCEWIN nvram.txt."@
                } else if v.busy {
                    "Wait for SCEWIN to finish."@
                } else {
                    "Load nvram.txt from the SCEWIN folder (drops unsaved edits in the editor)."@
                })
            }),
    {
        let from_scewin: bool = self.is_loaded_from_scewin_nvram();
        if self.scewin_work.is_none() {
            (false, "SCEWIN folder not found.".to_owned())
        } else if from_scewin {
            (false, "Already using SCEWIN nvram.txt.".to_owned())
        } else if self.busy {
            (false, "Wait for SCEWIN to finish.".to_owned())
        } else {
            (
                true,
                "Load nvram.txt from the SCEWIN folder (drops unsaved edits in the editor).".to_owned(),
            )
        }
    }

    /// Whether the preview may start an import: there are changes, and SCEWIN is not running.
    pub fn can_import(&self, rows: &[ChangedRow]) -> (r: bool)
        ensures
            r == (rows@.len() > 0 && !self@.busy),
    {
        rows.len() > 0 && !self.busy
    }

    /// Whether the window is to be maximized once more at the start.
    pub fn take_maximize_attempt(&mut self) -> (r: bool)
        ensures
            r == (old(self)@.startup_maximize_attempts_left > 0),
            final(self)@ == (EditorView {
                startup_maximize_attempts_left: if r {
                    (old(self)@.startup_maximize_attempts_left - 1) as u8
                } else {
                    0
                },
                ..old(self)@
            }),
    {
        if self.startup_maximize_attempts_left == 0 {
            return false;
        }
        self.startup_maximize_attempts_left = self.startup_maximize_attempts_left - 1;
        true
    }
}

/// The name of a file ends in `.txt`, whatever the letter case.
pub open spec fn txt_name(name: Seq<char>) -> bool {
    let n = text::last_index(name, '.');
    n > 0 && text::ascii_lower_text(name.skip(n + 1)) == "txt"@
}

/// Whether a file that is dropped on the window is one to open: its name ends in `.txt`.
pub fn is_txt_file(name: &str) -> (r: bool)
    ensures
        r == txt_name(name@),
{
    let chars: Vec<char> = text::to_chars(name);
    match text::rfind_char(&chars, '.') {
        Some(n) => {
            if n == 0 {
                return false;
            }
            let ghost rest = name@.skip(n + 1);
            proof {
                reveal_strlit("txt");
                assert(rest.len() == chars@.len() - n - 1);
                assert(text::ascii_lower_text(rest).len() == rest.len());
                assert("txt"@.len() == 3);
            }
            if chars.len() - n != 4 {
                return false;
            }
            let r: bool = text::to_ascii_lower(chars[n + 1]) == 't' && text::to_ascii_lower(
                chars[n + 2],
            ) == 'x' && text::to_ascii_lower(chars[n + 3]) == 't';
            proof {
                let lower = text::ascii_lower_text(rest);
                assert(lower[0] == text::ascii_lower(name@[n + 1]));
                assert(lower[1] == text::ascii_lower(name@[n + 2]));
                assert(lower[2] == text::ascii_lower(name@[n + 3]));
                if r {
                    assert(lower =~= "txt"@);
                }
            }
            r
        },
        None => false,
    }
}

// ---------------------------------------------------------------------------
// Laws
// ---------------------------------------------------------------------------

/// One thing that happens to the editor.
pub enum Step {
    Open(FileRead),
    Select(int),
    Presets,
    Choose(int, int),
    EditValue(int),
    LeaveValue(int),
    Type(Seq<char>),
    Saved(Seq<Seq<char>>, Seq<char>),
    Report(bool, Seq<char>),
    Run(Seq<char>),
    ExportEnded(Result<Option<i32>, String>, Option<FileRead>),
    ImportEnded(Result<Option<i32>, String>),
    ClearHistory,
}

/// The step is possible: what it speaks of is there.
pub open spec fn possible(v: EditorView, step: Step) -> bool {
    match step {
        Step::Select(i) | Step::EditValue(i) | Step::LeaveValue(i) => v.data is Some && 0 <= i
            < loaded_settings(v).len(),
        Step::Choose(i, sel) => {
            &&& v.data is Some
            &&& 0 <= i < loaded_settings(v).len()
            &&& 0 <= sel < loaded_settings(v)[i].options.len()
        },
        _ => true,
    }
}

/// The state after a step.
pub open spec fn after_step(v: EditorView, step: Step) -> EditorView {
    match step {
        Step::Open(file) => after_open(v, file),
        Step::Select(i) => with_selected(v, i),
        Step::Presets => presets_applied(v),
        Step::Choose(i, sel) => chosen(v, i, sel),
        Step::EditValue(i) => value_edited(v, i),
        Step::LeaveValue(i) => value_left(v, i),
        Step::Type(buffer) => EditorView { value_edit_buffer: buffer, ..v },
        Step::Saved(path, message) => saved(v, path, message),
        Step::Report(ok, message) => reported(v, ok, message),
        Step::Run(message) => running(v, message),
        Step::ExportEnded(result, dump) => export_ended(v, result, dump),
        Step::ImportEnded(result) => import_ended(v, result),
        Step::ClearHistory => EditorView { change_log: seq![], ..v },
    }
}

/// The steps are possible one after the other.
pub open spec fn all_possible(v: EditorView, steps: Seq<Step>) -> bool
    decreases steps.len(),
{
    steps.len() == 0 || (all_possible(v, steps.drop_last()) && possible(
        after_steps(v, steps.drop_last()),
        steps.last(),
    ))
}

/// The state after several steps.
pub open spec fn after_steps(v: EditorView, steps: Seq<Step>) -> EditorView
    decreases steps.len(),
{
    if steps.len() == 0 {
        v
    } else {
        after_step(after_steps(v, steps.drop_last()), steps.last())
    }
}

/// The history and its counter are all that entries of the history change.
proof fn lemma_all_logged(v: EditorView, rows: Seq<LogRow>)
    requires
        v.change_log.len() <= MAX_LOG,
    ensures
        ({
            let w = all_logged(v, rows);
            &&& w == (EditorView { change_log: w.change_log, change_seq: w.change_seq, ..v })
            &&& w.change_log.len() <= MAX_LOG
        }),
    decreases rows.len(),
{
    if rows.len() > 0 {
        lemma_all_logged(v, rows.drop_last());
    }
}

/// Settings that are reselected stay edits of their originals.
proof fn lemma_reselected(v: EditorView, settings: Seq<SettingView>)
    requires
        consistent(v),
        v.data is Some,
        presets::all_reselected(loaded_settings(v), settings),
    ensures
        consistent(with_settings(v, settings)),
{
    let w = with_settings(v, settings);
    assert forall|i: int| 0 <= i < settings.len() implies roundtrip::only_edited(
        #[trigger] (w.data->0).settings[i],
        w.original_settings[i],
    ) by {
        assert(presets::reselected(loaded_settings(v)[i], settings[i]));
        assert(roundtrip::only_edited(loaded_settings(v)[i], v.original_settings[i]));
    }
}

/// A dump that was just loaded is consistent with itself.
proof fn lemma_opened(v: EditorView, file: FileRead)
    requires
        consistent(v),
    ensures
        consistent(after_open(v, file)),
{
}

proof fn lemma_presets_applied(v: EditorView)
    requires
        consistent(v),
    ensures
        consistent(presets_applied(v)),
{
    let parsed = presets::parsed_input(v.preset_input);
    let after = presets::apply_all(presets::unapplied(loaded_settings(v)), parsed);
    presets::law_presets_only_select_options(presets::unapplied(loaded_settings(v)), parsed);
    if v.data is Some {
        let w = with_settings(v, after.settings);
        lemma_reselected(v, after.settings);
        lemma_all_logged(w, after.logs);
    }
}

proof fn lemma_chosen(v: EditorView, i: int, sel: int)
    requires
        consistent(v),
        possible(v, Step::Choose(i, sel)),
    ensures
        consistent(chosen(v, i, sel)),
{
    let settings = loaded_settings(v);
    let key = text::trim(settings[i].setup_question);
    let plan = presets::sync_plan(settings, key, sel, settings[i].options);
    let after = presets::with_choices(settings, plan);
    presets::law_plan_only_selects_options(settings, key, sel, settings[i].options);
    lemma_reselected(v, after);
    lemma_all_logged(with_settings(v, after), plan_rows(settings, plan));
}

proof fn lemma_value_edited(v: EditorView, i: int)
    requires
        consistent(v),
        possible(v, Step::EditValue(i)),
    ensures
        consistent(value_edited(v, i)),
{
    let settings = loaded_settings(v);
    let w = value_edited(v, i);
    assert forall|j: int| 0 <= j < settings.len() implies roundtrip::only_edited(
        #[trigger] (w.data->0).settings[j],
        w.original_settings[j],
    ) by {
        assert(roundtrip::only_edited(settings[j], v.original_settings[j]));
    }
}

proof fn lemma_value_left(v: EditorView, i: int)
    requires
        consistent(v),
    ensures
        consistent(value_left(v, i)),
{
}

proof fn lemma_saved(v: EditorView, path: Seq<Seq<char>>, message: Seq<char>)
    requires
        consistent(v),
    ensures
        consistent(saved(v, path, message)),
{
    if v.data is Some {
        assert((saved(v, path, message).data->0).settings == (v.data->0).settings);
    }
}

/// Every step keeps the state consistent.
pub proof fn law_steps_keep_consistency(v: EditorView, step: Step)
    requires
        consistent(v),
        possible(v, step),
    ensures
        consistent(after_step(v, step)),
{
    match step {
        Step::Open(file) => {
            lemma_opened(v, file);
        },
        Step::Presets => {
            lemma_presets_applied(v);
        },
        Step::Choose(i, sel) => {
            lemma_chosen(v, i, sel);
        },
        Step::EditValue(i) => {
            lemma_value_edited(v, i);
        },
        Step::LeaveValue(i) => {
            lemma_value_left(v, i);
        },
        Step::Saved(path, message) => {
            lemma_saved(v, path, message);
        },
        Step::ExportEnded(result, dump) => {
            if let Some(file) = dump {
                lemma_opened(v, file);
            }
        },
        _ => {},
    }
}

/// Whatever happens to the editor after it was started, its state is consistent: what is selected
/// is there, every setting is its original with another option selected or another value, and the
/// history is bounded.
pub proof fn law_reached_states_are_consistent(
    work: Option<Seq<Seq<char>>>,
    steps: Seq<Step>,
)
    requires
        all_possible(start_view(work), steps),
    ensures
        consistent(after_steps(start_view(work), steps)),
    decreases steps.len(),
{
    if steps.len() > 0 {
        law_reached_states_are_consistent(work, steps.drop_last());
        law_steps_keep_consistency(
            after_steps(start_view(work), steps.drop_last()),
            steps.last(),
        );
    }
}

/// A dump that was just loaded has no changes and nothing to save.
pub proof fn law_opened_dump_is_unchanged(v: EditorView, file: FileRead, n: int)
    requires
        file.content is Ok,
    ensures
        !after_open(v, file).dirty,
        changes_among(after_open(v, file), n) == 0,
    decreases n,
{
    if n > 0 {
        law_opened_dump_is_unchanged(v, file, n - 1);
    }
}

/// The option that was chosen is the active one.
pub proof fn law_chosen_option_is_active(v: EditorView, i: int, sel: int)
    requires
        v.data is Some,
        0 <= i < loaded_settings(v).len(),
        0 <= sel < loaded_settings(v)[i].options.len(),
        v.change_log.len() <= MAX_LOG,
    ensures
        loaded_settings(chosen(v, i, sel))[i] == presets::with_choice(loaded_settings(v)[i], sel),
{
    let settings = loaded_settings(v);
    let s = settings[i];
    let key = text::trim(s.setup_question);
    text::law_trim_is_idempotent(s.setup_question);
    presets::law_plan_selects_the_choice(settings, i, key, sel);
    let plan = presets::sync_plan(settings, key, sel, s.options);
    lemma_all_logged(
        with_settings(v, presets::with_choices(settings, plan)),
        plan_rows(settings, plan),
    );
    if s.active_option == Some(sel) {
        assert(presets::with_choice(s, sel) =~= s);
    }
}

/// The latest change is on top of the history, and the changes before it follow as they were.
pub proof fn law_latest_change_is_on_top(v: EditorView, row: LogRow)
    requires
        v.change_log.len() <= MAX_LOG,
    ensures
        ({
            let log = logged(v, row).change_log;
            &&& log.len() == if v.change_log.len() < MAX_LOG {
                v.change_log.len() + 1
            } else {
                MAX_LOG as nat
            }
            &&& log[0].summary == row.summary
            &&& log[0].seq == logged(v, row).change_seq
            &&& forall|i: int| 1 <= i < log.len() ==> #[trigger] log[i] == v.change_log[i - 1]
        }),
{
}

/// The value field loses nothing: with the brackets put back it stands for the value of the
/// setting that is selected, or for nothing if the setting has no value.
pub proof fn law_value_field_stands_for_the_value(v: EditorView, i: int)
    requires
        v.data is Some,
        v.selected == Some(i),
        0 <= i < loaded_settings(v).len(),
        loaded_settings(v)[i].options.len() == 0,
    ensures
        ({
            let value = match loaded_settings(v)[i].value {
                Some(t) => t,
                None => seq![],
            };
            &&& field_value(synced(v)) == value
            &&& baseline_value(synced(v)) == value
        }),
{
    let t = match loaded_settings(v)[i].value {
        Some(t) => t,
        None => seq![],
    };
    reveal_strlit("<");
    reveal_strlit(">");
    if let Some(inner) = validation::angle_value(t) {
        assert("<"@ + inner + ">"@ =~= t);
    } else {
        assert(Seq::<char>::empty() + t + Seq::<char>::empty() =~= t);
    }
}

/// The list shows exactly the settings that pass its filters, in the order of the dump.
pub proof fn law_list_shows_what_passes(
    v: EditorView,
    settings: Seq<SettingView>,
    query: Seq<char>,
    i: int,
)
    requires
        0 <= i < settings.len(),
    ensures
        shown_settings(v, settings, query).contains(i) <==> shown(v, settings[i], i, query),
    decreases settings.len(),
{
    let rest = settings.drop_last();
    let before = shown_settings(v, rest, query);
    let all = shown_settings(v, settings, query);
    lemma_shown_settings(v, rest, query);
    if i < rest.len() {
        law_list_shows_what_passes(v, rest, query, i);
        if before.contains(i) {
            let k = choose|k: int| 0 <= k < before.len() && before[k] == i;
            assert(all[k] == i);
        }
        if all.contains(i) {
            let k = choose|k: int| 0 <= k < all.len() && all[k] == i;
            assert(before[k] == i);
        }
    } else {
        if shown(v, settings[i], i, query) {
            assert(all[all.len() - 1] == i);
        }
    }
}

proof fn lemma_shown_settings(v: EditorView, settings: Seq<SettingView>, query: Seq<char>)
    ensures
        forall|k: int|
            0 <= k < shown_settings(v, settings, query).len() ==> 0 <= #[trigger] shown_settings(
                v,
                settings,
                query,
            )[k] < settings.len(),
    decreases settings.len(),
{
    if settings.len() > 0 {
        lemma_shown_settings(v, settings.drop_last(), query);
        let before = shown_settings(v, settings.drop_last(), query);
        let all = shown_settings(v, settings, query);
        assert forall|k: int| 0 <= k < all.len() implies 0 <= #[trigger] all[k]
            < settings.len() by {
            if k < before.len() {
                assert(all[k] == before[k]);
            }
        }
    }
}

/// The preview of an import lists as many settings as were changed.
pub proof fn law_preview_lists_every_change(v: EditorView, n: int)
    ensures
        changed_rows(v, n).len() == changes_among(v, n),
    decreases n,
{
    if n > 0 {
        law_preview_lists_every_change(v, n - 1);
    }
}

/// What an entry of the history leads to has its token and offset, or else its name.
pub proof fn law_found_setting_matches(
    v: EditorView,
    token: Seq<char>,
    offset: Seq<char>,
    question: Seq<char>,
)
    ensures
        setting_index(v, token, offset, question) matches Some(i) ==> {
            let all = loaded_settings(v);
            &&& 0 <= i < all.len()
            &&& (text::trim(all[i].token) == text::trim(token) && text::trim(all[i].offset)
                == text::trim(offset)) || text::trim(all[i].setup_question) == text::trim(question)
        },
{
    lemma_first_at(loaded_settings(v), token, offset);
    lemma_first_named(loaded_settings(v), question);
}

proof fn lemma_first_at(settings: Seq<SettingView>, token: Seq<char>, offset: Seq<char>)
    ensures
        0 <= first_at(settings, token, offset) <= settings.len(),
        first_at(settings, token, offset) < settings.len() ==> {
            let s = settings[first_at(settings, token, offset)];
            text::trim(s.token) == text::trim(token) && text::trim(s.offset) == text::trim(offset)
        },
    decreases settings.len(),
{
    if settings.len() > 0 {
        lemma_first_at(settings.drop_first(), token, offset);
    }
}

proof fn lemma_first_named(settings: Seq<SettingView>, question: Seq<char>)
    ensures
        0 <= first_named(settings, question) <= settings.len(),
        first_named(settings, question) < settings.len() ==> text::trim(
            settings[first_named(settings, question)].setup_question,
        ) == text::trim(question),
    decreases settings.len(),
{
    if settings.len() > 0 {
        lemma_first_named(settings.drop_first(), question);
    }
}

/// What is saved is what is loaded again: the bytes that are saved, opened from a file, give the
/// settings as they are in the editor. The dump has to be regular as far as it is written to, values
/// that were changed have to stand on lines of their own, lines and changed values have to be
/// Windows-1252, and the bytes must not start like a byte order mark.
pub proof fn law_saved_dump_opens_as_edited(
    v: EditorView,
    nothing: Seq<char>,
    bytes: Seq<u8>,
    path: Option<Seq<Seq<char>>>,
)
    requires
        consistent(v),
        v.data is Some,
        save_bytes(v, nothing) == Ok::<Seq<u8>, Seq<char>>(bytes),
        roundtrip::regular((v.data->0).original_lines, loaded_settings(v)),
        forall|n: int|
            0 <= n < loaded_settings(v).len() && (#[trigger] loaded_settings(v)[n]).value
                != v.original_settings[n].value ==> {
                &&& roundtrip::value_has_line((v.data->0).original_lines, n)
                &&& loaded_settings(v)[n].value is Some
                &&& roundtrip::writable_value(loaded_settings(v)[n].value->0)
                &&& roundtrip::fits_file(loaded_settings(v)[n].value->0)
            },
        forall|i: int|
            0 <= i < (v.data->0).original_lines.len() ==> roundtrip::fits_file(
                #[trigger] (v.data->0).original_lines[i],
            ),
        !codec::has_byte_order_mark(bytes),
    ensures
        nvram::read_text(codec::file_text(bytes), path).settings == loaded_settings(v),
{
    let d = v.data->0;
    lemma_editor_edits(v);
    assert forall|n: int|
        0 <= n < d.settings.len() && !roundtrip::value_kept(
            d.original_lines,
            d.settings,
            n,
        ) implies roundtrip::fits_file((#[trigger] d.settings[n]).value->0) by {
        assert(loaded_settings(v)[n].value != v.original_settings[n].value);
    }
    roundtrip::law_saved_file_loads_edited_settings(d.original_lines, d.settings, path);
}

/// What the editor holds are edits of the dump.
proof fn lemma_editor_edits(v: EditorView)
    requires
        consistent(v),
        v.data is Some,
        forall|n: int|
            0 <= n < loaded_settings(v).len() && (#[trigger] loaded_settings(v)[n]).value
                != v.original_settings[n].value ==> {
                &&& roundtrip::value_has_line((v.data->0).original_lines, n)
                &&& loaded_settings(v)[n].value is Some
                &&& roundtrip::writable_value(loaded_settings(v)[n].value->0)
            },
    ensures
        roundtrip::edits((v.data->0).original_lines, loaded_settings(v)),
{
    let d = v.data->0;
    assert forall|n: int| 0 <= n < d.settings.len() implies roundtrip::only_edited(
        #[trigger] d.settings[n],
        nvram::listed_settings(d.original_lines)[n],
    ) by {
        assert(roundtrip::only_edited(d.settings[n], v.original_settings[n]));
    }
    assert forall|n: int|
        0 <= n < d.settings.len() && !roundtrip::value_kept(
            d.original_lines,
            d.settings,
            n,
        ) implies {
        &&& roundtrip::value_has_line(d.original_lines, n)
        &&& (#[trigger] d.settings[n]).value is Some
        &&& roundtrip::writable_value(d.settings[n].value->0)
    } by {
        assert(loaded_settings(v)[n].value != v.original_settings[n].value);
    }
}

// ---------------------------------------------------------------------------
// Laws of what each step does
// ---------------------------------------------------------------------------

/// A change goes into the history with the question, the token and the offset of its setting, without
/// white space around them, and with a number one above the last; nothing else of the editor changes.
pub proof fn law_history_rows(v: EditorView, row: LogRow)
    ensures
        ({
            let w = logged(v, row);
            &&& w.change_log.len() > 0
            &&& w.change_log[0].setting == text::trim(row.question)
            &&& w.change_log[0].token == text::trim(row.token)
            &&& w.change_log[0].offset == text::trim(row.offset)
            &&& w.change_log[0].summary == row.summary
            &&& v.change_seq < u32::MAX ==> w.change_log[0].seq == v.change_seq + 1
            &&& v.change_seq == u32::MAX ==> w.change_log[0].seq == 0
            &&& w.change_seq == w.change_log[0].seq
            &&& w == (EditorView { change_log: w.change_log, change_seq: w.change_seq, ..v })
        }),
{
}

/// Of several changes the last one is on top, and the older ones follow, up to 400 in all.
pub proof fn law_history_keeps_the_latest(v: EditorView, rows: Seq<LogRow>)
    requires
        v.change_log.len() <= 400,
    ensures
        ({
            let log = all_logged(v, rows).change_log;
            &&& log.len() == (if v.change_log.len() + rows.len() <= 400 {
                v.change_log.len() + rows.len()
            } else {
                400nat
            })
            &&& forall|k: int|
                0 <= k < rows.len() && k < 400 ==> {
                    &&& (#[trigger] log[k]).summary == rows[rows.len() - 1 - k].summary
                    &&& log[k].setting == text::trim(rows[rows.len() - 1 - k].question)
                    &&& log[k].token == text::trim(rows[rows.len() - 1 - k].token)
                    &&& log[k].offset == text::trim(rows[rows.len() - 1 - k].offset)
                }
            &&& forall|k: int| rows.len() <= k < log.len() ==> #[trigger] log[k]
                == v.change_log[k - rows.len()]
        }),
    decreases rows.len(),
{
    if rows.len() > 0 {
        let front = rows.drop_last();
        law_history_keeps_the_latest(v, front);
        let mid = all_logged(v, front);
        let log = all_logged(v, rows).change_log;
        assert(log[0].summary == rows.last().summary);
        assert forall|k: int| 1 <= k < log.len() implies #[trigger] log[k] == mid.change_log[k - 1] by {}
        assert forall|k: int| 0 <= k < rows.len() && k < 400 implies {
            &&& (#[trigger] log[k]).summary == rows[rows.len() - 1 - k].summary
            &&& log[k].setting == text::trim(rows[rows.len() - 1 - k].question)
            &&& log[k].token == text::trim(rows[rows.len() - 1 - k].token)
            &&& log[k].offset == text::trim(rows[rows.len() - 1 - k].offset)
        } by {
            if k > 0 {
                assert(log[k] == mid.change_log[k - 1]);
                assert(front[front.len() - 1 - (k - 1)] == rows[rows.len() - 1 - k]);
            }
        }
        assert forall|k: int| rows.len() <= k < log.len() implies #[trigger] log[k]
            == v.change_log[k - rows.len()] by {
            assert(log[k] == mid.change_log[k - 1]);
        }
    }
}

/// The history shows, in order, the entries in whose setting and summary every word of the query
/// stands.
pub proof fn law_history_shows_what_is_found(log: Seq<EntryView>, query: Seq<char>)
    ensures
        forall|i: int|
            0 <= i < log.len() ==> (#[trigger] shown_entries(log, query).contains(i) <==> search::found(
                log[i].setting + " "@ + log[i].summary,
                query,
            )),
        forall|k: int|
            0 <= k < shown_entries(log, query).len() ==> 0 <= #[trigger] shown_entries(
                log,
                query,
            )[k] < log.len(),
        forall|k: int, m: int|
            0 <= k < m < shown_entries(log, query).len() ==> #[trigger] shown_entries(log, query)[k]
                < #[trigger] shown_entries(log, query)[m],
    decreases log.len(),
{
    if log.len() > 0 {
        let rest = log.drop_last();
        law_history_shows_what_is_found(rest, query);
        let before = shown_entries(rest, query);
        let all = shown_entries(log, query);
        assert forall|i: int| 0 <= i < log.len() implies (#[trigger] all.contains(i)
            <==> search::found(log[i].setting + " "@ + log[i].summary, query)) by {
            if i < rest.len() {
                assert(rest[i] == log[i]);
                assert(before.contains(i) <==> search::found(
                    log[i].setting + " "@ + log[i].summary,
                    query,
                ));
                if before.contains(i) {
                    let k = choose|k: int| 0 <= k < before.len() && before[k] == i;
                    assert(all[k] == i);
                }
                if all.contains(i) {
                    let k = choose|k: int| 0 <= k < all.len() && all[k] == i;
                    assert(before[k] == i);
                }
            } else {
                if search::found(entry_text(log.last()), query) {
                    assert(all[all.len() - 1] == i);
                } else if all.contains(i) {
                    let k = choose|k: int| 0 <= k < all.len() && all[k] == i;
                    assert(before[k] == i);
                }
            }
        }
        assert forall|k: int| 0 <= k < all.len() implies 0 <= #[trigger] all[k] < log.len() by {
            if k < before.len() {
                assert(all[k] == before[k]);
            }
        }
        assert forall|k: int, m: int| 0 <= k < m < all.len() implies #[trigger] all[k]
            < #[trigger] all[m] by {
            assert(all[k] == before[k]);
            if m < before.len() {
                assert(all[m] == before[m]);
            }
        }
    }
}

/// The list is in the order of the dump: the positions of the settings that are shown grow.
pub proof fn law_list_is_in_order(v: EditorView, settings: Seq<SettingView>, query: Seq<char>)
    ensures
        forall|k: int, m: int|
            0 <= k < m < shown_settings(v, settings, query).len() ==> #[trigger] shown_settings(
                v,
                settings,
                query,
            )[k] < #[trigger] shown_settings(v, settings, query)[m],
    decreases settings.len(),
{
    if settings.len() > 0 {
        let rest = settings.drop_last();
        law_list_is_in_order(v, rest, query);
        lemma_shown_settings(v, rest, query);
        let before = shown_settings(v, rest, query);
        let all = shown_settings(v, settings, query);
        assert forall|k: int, m: int| 0 <= k < m < all.len() implies #[trigger] all[k]
            < #[trigger] all[m] by {
            assert(all[k] == before[k]);
            if m < before.len() {
                assert(all[m] == before[m]);
            }
        }
    }
}

/// What a query and the filters of the list let through: settings with options, without options or
/// both, all or only those that were changed, in whose question, help, token and current choice or
/// value every word of the query stands.
pub proof fn law_what_the_list_shows(v: EditorView, s: SettingView, i: int, query: Seq<char>)
    ensures
        shown(v, s, i, query) <==> {
            &&& v.list_filter_kind is Options ==> s.options.len() > 0
            &&& v.list_filter_kind is Values ==> s.options.len() == 0
            &&& v.show_only_changed ==> changed_at(v, i)
            &&& search::found(
                s.setup_question + " "@ + s.help_string + " "@ + s.token + " "@
                    + nvram::current_text(s),
                query,
            )
        },
{
}

/// A setting counts as changed if and only if it is not what it was when the dump was opened.
pub proof fn law_changed_settings_differ(v: EditorView, i: int)
    requires
        consistent(v),
    ensures
        changed_at(v, i) <==> v.data is Some && 0 <= i < loaded_settings(v).len()
            && loaded_settings(v)[i] != v.original_settings[i],
{
    if v.data is Some && 0 <= i < loaded_settings(v).len() {
        let s = (v.data->0).settings[i];
        assert(roundtrip::only_edited(s, v.original_settings[i]));
        if !validation::value_changed(s, v.original_settings[i]) {
            assert(s =~= v.original_settings[i]);
        }
    }
}

/// The preview has a row for each setting that was changed, in the order of the dump, and each row
/// tells what the setting was and is set to.
pub proof fn law_preview_rows(v: EditorView, n: int)
    ensures
        forall|i: int|
            0 <= i < n && changed_at(v, i) ==> exists|k: int|
                0 <= k < changed_rows(v, n).len() && (#[trigger] changed_rows(v, n)[k]).index == i,
        forall|k: int|
            0 <= k < changed_rows(v, n).len() ==> {
                let row = #[trigger] changed_rows(v, n)[k];
                &&& 0 <= row.index < n
                &&& changed_at(v, row.index)
                &&& row.name == text::trim(loaded_settings(v)[row.index].setup_question)
                &&& row.before == nvram::current_text(v.original_settings[row.index])
                &&& row.after == nvram::current_text(loaded_settings(v)[row.index])
            },
        forall|k: int, m: int|
            0 <= k < m < changed_rows(v, n).len() ==> (#[trigger] changed_rows(v, n)[k]).index < (
            #[trigger] changed_rows(v, n)[m]).index,
    decreases n,
{
    if n > 0 {
        law_preview_rows(v, n - 1);
        let before = changed_rows(v, n - 1);
        let all = changed_rows(v, n);
        assert forall|i: int| 0 <= i < n && changed_at(v, i) implies exists|k: int|
            0 <= k < all.len() && (#[trigger] all[k]).index == i by {
            if i < n - 1 {
                let k = choose|k: int| 0 <= k < before.len() && (#[trigger] before[k]).index == i;
                assert(all[k] == before[k]);
            } else {
                assert(all[all.len() - 1].index == i);
            }
        }
        assert forall|k: int| 0 <= k < all.len() implies {
            let row = #[trigger] all[k];
            &&& 0 <= row.index < n
            &&& changed_at(v, row.index)
            &&& row.name == text::trim(loaded_settings(v)[row.index].setup_question)
            &&& row.before == nvram::current_text(v.original_settings[row.index])
            &&& row.after == nvram::current_text(loaded_settings(v)[row.index])
        } by {
            if k < before.len() {
                assert(all[k] == before[k]);
            }
        }
        assert forall|k: int, m: int| 0 <= k < m < all.len() implies (#[trigger] all[k]).index < (
        #[trigger] all[m]).index by {
            assert(all[k] == before[k]);
            if m < before.len() {
                assert(all[m] == before[m]);
            }
        }
    }
}

/// A setting is found by its token and its offset first, if both are given, and else by its name; in
/// either case the first one, and none only if there is none.
pub proof fn law_first_matching_setting_is_found(
    v: EditorView,
    token: Seq<char>,
    offset: Seq<char>,
    question: Seq<char>,
)
    ensures
        ({
            let all = loaded_settings(v);
            let place = |j: int|
                text::trim(all[j].token) == text::trim(token) && text::trim(all[j].offset)
                    == text::trim(offset);
            let name = |j: int| text::trim(all[j].setup_question) == text::trim(question);
            match setting_index(v, token, offset, question) {
                Some(i) => {
                    &&& 0 <= i < all.len()
                    &&& token.len() > 0 && offset.len() > 0 && place(i) && (forall|j: int|
                        #![trigger all[j]]
                        0 <= j < i ==> !place(j)) || name(i) && (forall|j: int|
                        #![trigger all[j]]
                        0 <= j < i ==> !name(j)) && (token.len() == 0 || offset.len() == 0 || (
                    forall|j: int| #![trigger all[j]] 0 <= j < all.len() ==> !place(j)))
                },
                None => {
                    &&& forall|j: int| #![trigger all[j]] 0 <= j < all.len() ==> !name(j)
                    &&& token.len() > 0 && offset.len() > 0 ==> forall|j: int|
                        #![trigger all[j]]
                        0 <= j < all.len() ==> !place(j)
                },
            }
        }),
{
    lemma_first_at_is_first(loaded_settings(v), token, offset);
    lemma_first_named_is_first(loaded_settings(v), question);
    lemma_first_at(loaded_settings(v), token, offset);
    lemma_first_named(loaded_settings(v), question);
}

proof fn lemma_first_at_is_first(settings: Seq<SettingView>, token: Seq<char>, offset: Seq<char>)
    ensures
        forall|j: int|
            0 <= j < first_at(settings, token, offset) && j < settings.len() ==> !(text::trim(
                (#[trigger] settings[j]).token,
            ) == text::trim(token) && text::trim(settings[j].offset) == text::trim(offset)),
    decreases settings.len(),
{
    if settings.len() > 0 {
        let t = settings.drop_first();
        lemma_first_at_is_first(t, token, offset);
        assert forall|j: int|
            0 <= j < first_at(settings, token, offset) && j < settings.len() implies !(text::trim(
            (#[trigger] settings[j]).token,
        ) == text::trim(token) && text::trim(settings[j].offset) == text::trim(offset)) by {
            if j > 0 {
                assert(t[j - 1] == settings[j]);
            }
        }
    }
}

proof fn lemma_first_named_is_first(settings: Seq<SettingView>, question: Seq<char>)
    ensures
        forall|j: int|
            0 <= j < first_named(settings, question) && j < settings.len() ==> text::trim(
                (#[trigger] settings[j]).setup_question,
            ) != text::trim(question),
    decreases settings.len(),
{
    if settings.len() > 0 {
        let t = settings.drop_first();
        lemma_first_named_is_first(t, question);
        assert forall|j: int|
            0 <= j < first_named(settings, question) && j < settings.len() implies text::trim(
            (#[trigger] settings[j]).setup_question,
        ) != text::trim(question) by {
            if j > 0 {
                assert(t[j - 1] == settings[j]);
            }
        }
    }
}

/// Selecting a setting shows its value in the field and changes nothing else: a setting with options
/// leaves the field empty, and angle brackets stand outside it.
pub proof fn law_selecting_shows_the_value(v: EditorView, i: int)
    requires
        v.data is Some,
        0 <= i < loaded_settings(v).len(),
    ensures
        ({
            let w = with_selected(v, i);
            let s = loaded_settings(v)[i];
            &&& w.selected == Some(i)
            &&& w == (EditorView {
                selected: w.selected,
                value_edit_buffer: w.value_edit_buffer,
                value_edit_baseline: w.value_edit_baseline,
                value_outer_prefix: w.value_outer_prefix,
                value_outer_suffix: w.value_outer_suffix,
                ..v
            })
            &&& w.value_edit_baseline == w.value_edit_buffer
            &&& s.options.len() > 0 ==> w.value_edit_buffer.len() == 0 && field_value(w).len() == 0
            &&& s.options.len() == 0 && s.value is None ==> field_value(w).len() == 0
            &&& s.options.len() == 0 ==> forall|t: Seq<char>|
                s.value == Some(#[trigger] (seq!['<'] + t + seq!['>'])) ==> w.value_edit_buffer == t
            &&& s.options.len() == 0 && s.value is Some ==> field_value(w) == s.value->0
        }),
{
    let s = loaded_settings(v)[i];
    let w = EditorView { selected: Some(i), ..v };
    reveal_strlit("<");
    reveal_strlit(">");
    if s.options.len() == 0 {
        law_value_field_stands_for_the_value(w, i);
        assert forall|t: Seq<char>|
            s.value == Some(#[trigger] (seq!['<'] + t + seq!['>'])) implies with_selected(
            v,
            i,
        ).value_edit_buffer == t by {
            validation::law_angle_brackets_come_off(t);
        }
    }
}

/// Opening a dump loads its settings as they are, selects the first, empties the history and leaves
/// nothing to save; a dump that cannot be read changes nothing but the status.
pub proof fn law_opening_a_dump(v: EditorView, file: FileRead)
    ensures
        ({
            let w = after_open(v, file);
            match file.content {
                Ok(bytes) => {
                    let lines = text::lines(codec::file_text(bytes@));
                    &&& w.data == Some(
                        NvramView {
                            settings: nvram::listed_settings(lines),
                            original_lines: lines,
                            path: Some(text::texts(file.path@)),
                        },
                    )
                    &&& w.original_settings == nvram::listed_settings(lines)
                    &&& w.selected == (if nvram::listed_settings(lines).len() > 0 {
                        Some(0int)
                    } else {
                        None
                    })
                    &&& w.change_log.len() == 0 && w.change_seq == 0 && !w.dirty
                    &&& w.status == Some((true, "Loaded: "@ + file.path_text@))
                    &&& w.scewin_work == v.scewin_work && w.busy == v.busy && w.preset_input
                        == v.preset_input && w.center_toast == v.center_toast
                        && w.show_only_changed == v.show_only_changed && w.list_filter_kind
                        == v.list_filter_kind && w.autostart_done == v.autostart_done
                },
                Err(e) => w == (EditorView {
                    status: Some((false, "Failed to open: "@ + e@)),
                    ..v
                }),
            }
        }),
{
}

/// What choosing an option does to each setting: the setting itself takes the option, settings of
/// the same name with the same options take it too, and settings of other names stay as they are.
pub proof fn law_choice_spreads_by_name(v: EditorView, i: int, sel: int, j: int)
    requires
        v.data is Some,
        0 <= i < loaded_settings(v).len(),
        0 <= sel < loaded_settings(v)[i].options.len(),
        v.change_log.len() <= MAX_LOG,
        0 <= j < loaded_settings(v).len(),
    ensures
        ({
            let before = loaded_settings(v);
            let w = chosen(v, i, sel);
            let after = loaded_settings(w);
            &&& after.len() == before.len()
            &&& before[i].active_option == Some(sel) ==> w == v
            &&& before[i].active_option != Some(sel) ==> {
                &&& w.dirty
                &&& w == (EditorView {
                    data: w.data,
                    dirty: true,
                    change_log: w.change_log,
                    change_seq: w.change_seq,
                    ..v
                })
                &&& text::trim(before[j].setup_question) != text::trim(before[i].setup_question)
                    ==> after[j] == before[j]
                &&& text::trim(before[j].setup_question) == text::trim(before[i].setup_question)
                    && before[j].options == before[i].options ==> after[j] == (SettingView {
                    active_option: Some(sel),
                    ..before[j]
                })
            }
        }),
{
    let settings = loaded_settings(v);
    let s = settings[i];
    let key = text::trim(s.setup_question);
    text::law_trim_is_idempotent(s.setup_question);
    presets::law_choice_goes_to_settings_of_the_same_name(settings, key, sel, s.options, j);
    let plan = presets::sync_plan(settings, key, sel, s.options);
    lemma_all_logged(
        with_settings(v, presets::with_choices(settings, plan)),
        plan_rows(settings, plan),
    );
}

/// Editing a value writes what stands in the field, with the brackets around it, into the setting
/// and into no other; leaving the field puts a change into the history if there was one.
pub proof fn law_editing_a_value(v: EditorView, i: int)
    requires
        v.data is Some,
        0 <= i < loaded_settings(v).len(),
    ensures
        ({
            let w = value_edited(v, i);
            let u = value_left(v, i);
            &&& loaded_settings(w).len() == loaded_settings(v).len()
            &&& loaded_settings(w)[i] == (SettingView {
                value: Some(v.value_outer_prefix + v.value_edit_buffer + v.value_outer_suffix),
                ..loaded_settings(v)[i]
            })
            &&& forall|j: int|
                0 <= j < loaded_settings(v).len() && j != i ==> #[trigger] loaded_settings(w)[j]
                    == loaded_settings(v)[j]
            &&& w.dirty
            &&& w == (EditorView { data: w.data, dirty: true, ..v })
            &&& v.value_edit_buffer == v.value_edit_baseline ==> u == v
            &&& v.value_edit_buffer != v.value_edit_baseline ==> {
                &&& u.value_edit_baseline == v.value_edit_buffer
                &&& u.change_log[0].summary == v.value_outer_prefix + v.value_edit_baseline
                    + v.value_outer_suffix + seq![' ', '\u{2192}', ' '] + (v.value_outer_prefix
                    + v.value_edit_buffer + v.value_outer_suffix)
                &&& u.change_log[0].setting == text::trim(loaded_settings(v)[i].setup_question)
                &&& u.data == v.data && u.dirty == v.dirty && u.selected == v.selected && u.status
                    == v.status && u.value_edit_buffer == v.value_edit_buffer
            }
        }),
{
    reveal_strlit(" \u{2192} ");
    assert(" \u{2192} "@ =~= seq![' ', '\u{2192}', ' ']);
}

/// Presets that were applied: the settings are those that applying the parsed lines gives, every
/// answer that is no error has its row in the history, and there is something to save if an option
/// was selected that was not before. Without presets, or without a dump, nothing but the status
/// changes.
pub proof fn law_applying_the_preset_input(v: EditorView)
    requires
        v.change_log.len() <= MAX_LOG,
    ensures
        ({
            let w = presets_applied(v);
            let parsed = presets::parsed_input(v.preset_input);
            let after = presets::apply_all(presets::unapplied(loaded_settings(v)), parsed);
            if parsed.len() == 0 || v.data is None {
                &&& w == (EditorView { status: w.status, ..v })
                &&& w.status matches Some((ok, _)) && !ok
            } else {
                &&& loaded_settings(w) == after.settings
                &&& w.dirty == (v.dirty || after.applied > 0)
                &&& w.original_settings == v.original_settings && w.selected == v.selected
                &&& w.status matches Some((ok, _)) && ok == (after.errors.len() == 0)
                &&& w.change_log == all_logged(v, after.logs).change_log
                &&& w.preset_input == v.preset_input && w.busy == v.busy
            }
        }),
{
    let parsed = presets::parsed_input(v.preset_input);
    let after = presets::apply_all(presets::unapplied(loaded_settings(v)), parsed);
    if parsed.len() > 0 && v.data is Some {
        let u = with_settings(v, after.settings);
        lemma_all_logged(u, after.logs);
        lemma_logged_alike(u, v, after.logs);
    }
}

/// What goes into the history depends on nothing but the history and the rows.
proof fn lemma_logged_alike(a: EditorView, b: EditorView, rows: Seq<LogRow>)
    requires
        a.change_log == b.change_log,
        a.change_seq == b.change_seq,
    ensures
        all_logged(a, rows).change_log == all_logged(b, rows).change_log,
        all_logged(a, rows).change_seq == all_logged(b, rows).change_seq,
    decreases rows.len(),
{
    if rows.len() > 0 {
        lemma_logged_alike(a, b, rows.drop_last());
    }
}

/// The status after presets: how many were applied, how many were unchanged, and the first two
/// errors.
pub proof fn law_preset_status(a: presets::Applied)
    ensures
        ({
            let head = "Presets applied: "@ + text::decimal(a.applied) + ", unchanged: "@
                + text::decimal(a.unchanged) + "."@;
            let same = " All matching settings were already at that option."@;
            let told = if a.applied == 0 && a.unchanged > 0 {
                head + same
            } else {
                head
            };
            &&& a.errors.len() == 0 ==> preset_message(a) == told
            &&& a.errors.len() == 1 ==> preset_message(a) == told + (" Errors: "@ + a.errors[0])
            &&& a.errors.len() >= 2 ==> preset_message(a) == told + (" Errors: "@ + (a.errors[0]
                + " | "@ + a.errors[1]))
        }),
{
    reveal_strlit("");
    let head = "Presets applied: "@ + text::decimal(a.applied) + ", unchanged: "@ + text::decimal(
        a.unchanged,
    ) + "."@;
    assert(head + ""@ =~= head);
    let same = " All matching settings were already at that option."@;
    assert(head + same + ""@ =~= head + same);
    assert(head + ""@ + ""@ =~= head);
    if a.errors.len() >= 2 {
        let two = first_errors(a.errors);
        assert(two.drop_last() =~= seq![a.errors[0]]);
        assert(two.last() == a.errors[1]);
        assert(text::join(two.drop_last(), " | "@) == a.errors[0]);
    }
}

/// When a dump is saved: if one is loaded and no changed value is at fault; and what is saved are
/// its lines with the settings written into them.
pub proof fn law_when_a_dump_is_saved(v: EditorView, nothing: Seq<char>)
    requires
        consistent(v),
    ensures
        match save_bytes(v, nothing) {
            Ok(bytes) => {
                &&& v.data is Some
                &&& forall|i: int|
                    0 <= i < loaded_settings(v).len() ==> validation::fault(
                        #[trigger] loaded_settings(v)[i],
                        v.original_settings[i],
                    ) is None
                &&& bytes == codec::encoded_lines(
                    nvram::patched_lines((v.data->0).original_lines, loaded_settings(v)),
                )
            },
            Err(m) => {
                ||| v.data is None && m == nothing
                ||| v.data is Some && exists|i: int|
                    0 <= i < loaded_settings(v).len() && validation::fault(
                        #[trigger] loaded_settings(v)[i],
                        v.original_settings[i],
                    ) == Some(m)
            },
        },
        scewin_save(v) matches Ok((path, bytes)) ==> v.scewin_work matches Some(work) && path
            == work.push("nvram.txt"@) && save_bytes(v, nothing) == Ok::<Seq<u8>, Seq<char>>(bytes),
{
    if let Some(d) = v.data {
        validation::law_first_fault_is_the_first(d.settings, v.original_settings);
        if let Some(m) = validation::first_fault(d.settings, v.original_settings) {
            let i = choose|i: int|
                {
                    &&& 0 <= i < d.settings.len() && i < v.original_settings.len()
                    &&& validation::fault(#[trigger] d.settings[i], v.original_settings[i]) == Some(
                        m,
                    )
                    &&& forall|j: int|
                        0 <= j < i ==> validation::fault(
                            #[trigger] d.settings[j],
                            v.original_settings[j],
                        ) is None
                };
            assert(loaded_settings(v)[i] == d.settings[i]);
        }
    }
}

/// After saving there is nothing to save, and the dump has the path that it was saved to; the
/// settings stay.
pub proof fn law_saving_leaves_the_settings(
    v: EditorView,
    path: Seq<Seq<char>>,
    message: Seq<char>,
)
    ensures
        ({
            let w = saved(v, path, message);
            &&& !w.dirty
            &&& loaded_settings(w) == loaded_settings(v)
            &&& v.data matches Some(d) ==> w.data == Some(NvramView { path: Some(path), ..d })
            &&& v.data is None ==> w.data is None
            &&& w == (EditorView {
                data: w.data,
                dirty: false,
                status: Some((true, message)),
                ..v
            })
        }),
{
}

/// Names of text files: something in front of a last dot, and `txt` behind it in any letter case.
pub proof fn law_names_of_text_files(stem: Seq<char>, ending: Seq<char>)
    requires
        !ending.contains('.'),
    ensures
        txt_name(stem + seq!['.'] + ending) <==> stem.len() > 0 && text::ascii_lower_text(ending)
            == seq!['t', 'x', 't'],
        !txt_name(ending),
{
    reveal_strlit("txt");
    assert("txt"@ =~= seq!['t', 'x', 't']);
    let name = stem + seq!['.'] + ending;
    let n = stem.len() as int;
    assert(name[n] == '.');
    assert forall|i: int| 0 <= i < ending.len() implies #[trigger] ending[i] != '.' by {
        assert(ending.contains(ending[i]));
    }
    assert forall|i: int| n < i < name.len() implies #[trigger] name[i] != '.' by {
        assert(name[i] == ending[i - n - 1]);
    }
    text::lemma_last_index_is(name, '.', n);
    assert(name.skip(n + 1) =~= ending);
    text::lemma_last_index_is(ending, '.', -1);
}

/// How SCEWIN ended is told: success only for the code zero, and any other code in decimal digits.
pub proof fn law_exit_codes_are_told(v: EditorView, code: i32)
    ensures
        ({
            let e = export_ended(v, Ok(Some(code)), None);
            let i = import_ended(v, Ok(Some(code)));
            &&& !e.busy && !i.busy
            &&& e.data == v.data && i.data == v.data
            &&& e.status matches Some((ok, _)) && ok == (code == 0)
            &&& i.status matches Some((ok, _)) && ok == (code == 0)
            &&& code != 0 ==> e.status == Some(
                (
                    false,
                    "Export failed (code "@ + signed_decimal(code as int)
                        + "). Approve UAC if nothing changed."@,
                ),
            )
            &&& code != 0 && code != 13 ==> i.status == Some(
                (
                    false,
                    "Import failed (code "@ + signed_decimal(code as int) + ")."@ + " "@
                        + "See log-file.txt in the SCEWIN folder."@,
                ),
            )
            &&& code >= 0 ==> text::digits_value(signed_decimal(code as int), 10) == code
            &&& code < 0 ==> signed_decimal(code as int) == "-"@ + signed_decimal(-code)
        }),
{
    if code >= 0 {
        text::law_numeral_is_read_back(code as nat, 10);
    }
}

/// Choosing another option of a setting that shares its name with no other puts one entry into the
/// history, which says from what to what.
pub proof fn law_choice_is_logged(v: EditorView, i: int, sel: int)
    requires
        v.data is Some,
        0 <= i < loaded_settings(v).len(),
        0 <= sel < loaded_settings(v)[i].options.len(),
        loaded_settings(v)[i].active_option != Some(sel),
        v.change_log.len() <= 400,
        forall|j: int|
            0 <= j < loaded_settings(v).len() && j != i ==> text::trim(
                (#[trigger] loaded_settings(v)[j]).setup_question,
            ) != text::trim(loaded_settings(v)[i].setup_question),
    ensures
        ({
            let s = loaded_settings(v)[i];
            let log = chosen(v, i, sel).change_log;
            &&& log.len() > 0
            &&& log[0].setting == text::trim(s.setup_question)
            &&& log[0].summary == change_format::change(
                presets::shown_choice(s),
                nvram::pretty(s.options[sel]),
            )
            &&& forall|k: int| 1 <= k < log.len() ==> #[trigger] log[k] == v.change_log[k - 1]
        }),
{
    let settings = loaded_settings(v);
    let s = settings[i];
    let key = text::trim(s.setup_question);
    text::law_trim_is_idempotent(s.setup_question);
    let plan = presets::sync_plan(settings, key, sel, s.options);
    presets::law_plan_is_sound(settings, key, sel, s.options);
    presets::law_plan_selects_the_choice(settings, i, key, sel);
    if plan.len() == 0 {
        assert(presets::with_choices(settings, plan) == settings);
    } else {
        assert(text::trim(settings[plan[0].0].setup_question) == text::trim(key));
        if plan.len() > 1 {
            assert(text::trim(settings[plan[1].0].setup_question) == text::trim(key));
            assert(plan[0].0 < plan[1].0);
        }
        assert(plan.drop_last().len() == 0);
        assert(plan.last() == plan[0]);
        assert(plan[0].0 == i);
        assert(presets::with_choices(settings, plan.drop_last()) == settings);
        assert(presets::with_choices(settings, plan)[i] == presets::with_choice(s, plan[0].1));
        assert(plan[0].1 == sel) by {
            assert(presets::with_choice(s, plan[0].1).active_option == Some(sel));
        }
        let rows = plan_rows(settings, plan);
        let w = with_settings(v, presets::with_choices(settings, plan));
        law_history_keeps_the_latest(w, rows);
        assert(rows[0].summary == change_format::change(
            presets::shown_choice(s),
            nvram::pretty(s.options[sel]),
        ));
    }
}

/// The option that the list of options shows: the active one, the last one if that is beyond the
/// end, and the first one if none is active.
pub proof fn law_option_that_is_shown(s: SettingView, i: int)
    requires
        s.options.len() > 0,
        i >= 0,
    ensures
        s.active_option is None ==> shown_option(s) == 0,
        s.active_option == Some(i) && i < s.options.len() ==> shown_option(s) == i,
        s.active_option == Some(i) && i >= s.options.len() ==> shown_option(s) == s.options.len()
            - 1,
        s.active_option == Some(i) && i < s.options.len() ==> shown_value(s) == nvram::pretty(
            s.options[i],
        ) && presets::shown_choice(s) == nvram::pretty(s.options[i]),
        s.active_option is None ==> presets::shown_choice(s) == "(unset)"@,
{
}

/// An export that brought a dump opens it and then tells how the export ended.
pub proof fn law_exported_dump_is_opened(v: EditorView, code: Option<i32>, file: FileRead)
    ensures
        ({
            let w = export_ended(v, Ok(code), Some(file));
            let u = after_open(v, file);
            &&& w.data == u.data && w.original_settings == u.original_settings
            &&& w.selected == u.selected && w.change_log == u.change_log && w.dirty == u.dirty
            &&& !w.busy
            &&& w.status matches Some((ok, message)) && ok == (code == Some(0i32))
                && w.center_toast == Some((ok, message))
        }),
{
}

/// A preview row is found by the words of its name, of what it was and of what it is.
pub proof fn law_rows_are_found_by_their_texts(row: RowView)
    ensures
        text::contains(row_text(row), row.name),
        text::contains(row_text(row), row.before),
        text::contains(row_text(row), row.after),
        row_text(row).len() == row.name.len() + row.before.len() + row.after.len() + 2,
{
    reveal_strlit(" ");
    let t = row_text(row);
    let none = Seq::<char>::empty();
    assert(t =~= none + row.name + (" "@ + row.before + " "@ + row.after));
    assert(t =~= (row.name + " "@) + row.before + (" "@ + row.after));
    assert(t =~= (row.name + " "@ + row.before + " "@) + row.after + none);
    text::law_contained_texts(t, row.name);
    text::law_contained_texts(t, row.before);
    text::law_contained_texts(t, row.after);
}

/// What is saved is what is loaded again, for a dump in which every setting states a question, a
/// token and an offset, no two the same three, in front of its options and its value, and in which
/// each list of options starts with a line of its own.
pub proof fn law_saved_settings_are_loaded_again(
    v: EditorView,
    nothing: Seq<char>,
    bytes: Seq<u8>,
    path: Option<Seq<Seq<char>>>,
)
    requires
        consistent(v),
        v.data is Some,
        save_bytes(v, nothing) == Ok::<Seq<u8>, Seq<char>>(bytes),
        roundtrip::keys_are_distinct((v.data->0).original_lines),
        roundtrip::keys_stand_in_front((v.data->0).original_lines),
        roundtrip::lists_are_started((v.data->0).original_lines),
        roundtrip::changed_values_are_identified(
            (v.data->0).original_lines,
            loaded_settings(v),
        ),
        forall|n: int|
            0 <= n < loaded_settings(v).len() && (#[trigger] loaded_settings(v)[n]).value
                != v.original_settings[n].value ==> {
                &&& roundtrip::value_has_line((v.data->0).original_lines, n)
                &&& loaded_settings(v)[n].value is Some
                &&& roundtrip::writable_value(loaded_settings(v)[n].value->0)
                &&& roundtrip::fits_file(loaded_settings(v)[n].value->0)
            },
        forall|i: int|
            0 <= i < (v.data->0).original_lines.len() ==> roundtrip::fits_file(
                #[trigger] (v.data->0).original_lines[i],
            ),
        !codec::has_byte_order_mark(bytes),
    ensures
        nvram::read_text(codec::file_text(bytes), path).settings == loaded_settings(v),
{
    lemma_editor_edits(v);
    roundtrip::law_identified_dump_is_regular((v.data->0).original_lines, loaded_settings(v));
    law_saved_dump_opens_as_edited(v, nothing, bytes, path);
}

} // verus!
