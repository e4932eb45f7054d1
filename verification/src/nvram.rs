//! Setup dumps as AMI's SCEWIN exports them: the settings they list, and writing changed settings
//! back into a dump.

use vstd::prelude::*;
use vstd::slice::slice_subrange;
use vstd::string::*;

use crate::codec;
use crate::grammar;
use crate::grammar::{LineKind, OptionChoice};
use crate::text;

verus! {

// ---------------------------------------------------------------------------
// Settings
// ---------------------------------------------------------------------------

/// One setting of the firmware setup.
#[derive(Debug, Clone)]
pub struct BiosSetting {
    pub setup_question: String,
    pub help_string: String,
    pub token: String,
    pub offset: String,
    pub width: String,
    pub bios_default: Option<String>,
    /// The options to choose from, if the setting has any.
    pub options: Vec<String>,
    /// The position of the option that is marked with a star, if one is.
    pub active_option: Option<usize>,
    /// The value of a setting that has no options.
    pub value: Option<String>,
    /// The statements of the block that are none of the above.
    pub content: Vec<String>,
}

/// A setting as plain texts and numbers.
#[verifier::ext_equal]
pub struct SettingView {
    pub setup_question: Seq<char>,
    pub help_string: Seq<char>,
    pub token: Seq<char>,
    pub offset: Seq<char>,
    pub width: Seq<char>,
    pub bios_default: Option<Seq<char>>,
    pub options: Seq<Seq<char>>,
    pub active_option: Option<int>,
    pub value: Option<Seq<char>>,
    pub content: Seq<Seq<char>>,
}

/// The text of an optional string.
pub open spec fn optional_text(s: Option<String>) -> Option<Seq<char>> {
    match s {
        Some(t) => Some(t@),
        None => None,
    }
}

/// An optional position as a number.
pub open spec fn optional_index(i: Option<usize>) -> Option<int> {
    match i {
        Some(n) => Some(n as int),
        None => None,
    }
}

impl View for BiosSetting {
    type V = SettingView;

    open spec fn view(&self) -> SettingView {
        SettingView {
            setup_question: self.setup_question@,
            help_string: self.help_string@,
            token: self.token@,
            offset: self.offset@,
            width: self.width@,
            bios_default: optional_text(self.bios_default),
            options: text::texts(self.options@),
            active_option: optional_index(self.active_option),
            value: optional_text(self.value),
            content: text::texts(self.content@),
        }
    }
}

/// The settings that a vector holds.
pub open spec fn setting_views(v: Seq<BiosSetting>) -> Seq<SettingView> {
    Seq::new(v.len(), |i: int| v[i]@)
}

/// A copy of an optional string.
pub fn clone_optional(s: &Option<String>) -> (r: Option<String>)
    ensures
        optional_text(r) == optional_text(*s),
{
    match s {
        Some(t) => Some(t.clone()),
        None => None,
    }
}

/// What identifies a setting in a dump: question, token and offset, none of them empty.
pub open spec fn key_of(s: SettingView) -> Option<(Seq<char>, Seq<char>, Seq<char>)> {
    let question = text::trim(s.setup_question);
    let token = text::trim(s.token);
    let offset = text::trim(s.offset);
    if question.len() == 0 || token.len() == 0 || offset.len() == 0 {
        None
    } else {
        Some((question, token, offset))
    }
}

/// What a setting is set to, as one text.
pub open spec fn current_text(s: SettingView) -> Seq<char> {
    match s.active_option {
        Some(i) if 0 <= i < s.options.len() => s.options[i],
        _ => match s.value {
            Some(v) => v,
            None => if s.options.len() == 1 {
                s.options[0]
            } else {
                text::join(s.options, ", "@)
            },
        },
    }
}

impl BiosSetting {
    /// What identifies the setting in a dump, if it is complete.
    pub fn key(&self) -> (r: Option<(String, String, String)>)
        ensures
            match r {
                Some(k) => key_of(self@) == Some((k.0@, k.1@, k.2@)),
                None => key_of(self@) is None,
            },
    {
        let question: String = text::trim_text(self.setup_question.as_str());
        let token: String = text::trim_text(self.token.as_str());
        let offset: String = text::trim_text(self.offset.as_str());
        if question.as_str().is_empty() || token.as_str().is_empty() || offset.as_str().is_empty() {
            return None;
        }
        Some((question, token, offset))
    }

    /// What the setting is set to: the active option, else the value, else the options.
    pub fn display_current(&self) -> (r: String)
        ensures
            r@ == current_text(self@),
    {
        if let Some(i) = self.active_option {
            if i < self.options.len() {
                return self.options[i].clone();
            }
        }
        if let Some(v) = &self.value {
            return v.clone();
        }
        if self.options.len() == 1 {
            return self.options[0].clone();
        }
        text::join_strings(&self.options, ", ")
    }

    /// A copy of the setting.
    pub fn duplicate(&self) -> (r: BiosSetting)
        ensures
            r@ == self@,
    {
        BiosSetting {
            setup_question: self.setup_question.clone(),
            help_string: self.help_string.clone(),
            token: self.token.clone(),
            offset: self.offset.clone(),
            width: self.width.clone(),
            bios_default: clone_optional(&self.bios_default),
            options: text::clone_strings(&self.options),
            active_option: self.active_option,
            value: clone_optional(&self.value),
            content: text::clone_strings(&self.content),
        }
    }
}

/// A setting has a key if and only if none of its question, its token and its offset is blank, and
/// the key is the three of them without the white space around them.
pub proof fn law_key_is_what_is_stated(s: SettingView)
    ensures
        key_of(s) is Some <==> !text::blank(s.setup_question) && !text::blank(s.token)
            && !text::blank(s.offset),
        key_of(s) matches Some((question, token, offset)) ==> question == text::trim(
            s.setup_question,
        ) && token == text::trim(s.token) && offset == text::trim(s.offset),
{
    text::law_blank_texts(s.setup_question);
    text::law_blank_texts(s.token);
    text::law_blank_texts(s.offset);
}

/// What a setting is set to: its active option if it has one, else its value, else all its options.
pub proof fn law_what_a_setting_is_set_to(s: SettingView, k: int, v: Seq<char>)
    ensures
        0 <= k < s.options.len() && s.active_option == Some(k) ==> current_text(s) == s.options[k],
        s.active_option is None && s.value == Some(v) ==> current_text(s) == v,
        s.active_option is None && s.value is None && s.options.len() == 0 ==> current_text(s).len()
            == 0,
        s.active_option is None && s.value is None && s.options.len() == 1 ==> current_text(s)
            == s.options[0],
        s.active_option is None && s.value is None && s.options.len() == 2 ==> current_text(s)
            == s.options[0] + seq![',', ' '] + s.options[1],
        s.active_option is None && s.value is None && s.options.len() > 1 ==> current_text(s)
            == text::join(s.options, ", "@),
{
    reveal_strlit(", ");
    assert(", "@ =~= seq![',', ' ']);
    if s.options.len() == 2 {
        assert(s.options.drop_last() =~= seq![s.options[0]]);
        assert(text::join(s.options.drop_last(), ", "@) == s.options[0]);
    }
}

/// A copy of a slice of settings.
pub fn duplicate_settings(v: &[BiosSetting]) -> (r: Vec<BiosSetting>)
    ensures
        setting_views(r@) == setting_views(v@),
{
    let mut r: Vec<BiosSetting> = Vec::new();
    let mut i: usize = 0;
    while i < v.len()
        invariant
            i <= v.len(),
            setting_views(r@) == setting_views(v@).take(i as int),
        decreases v.len() - i,
    {
        let ghost before = r@;
        r.push(v[i].duplicate());
        proof {
            assert(setting_views(r@) =~= setting_views(before).push(v@[i as int]@));
            assert(setting_views(r@) =~= setting_views(v@).take(i + 1));
        }
        i += 1;
    }
    r
}

/// An option for display: a bracketed number in front is set off by one space.
pub open spec fn pretty(option: Seq<char>) -> Seq<char> {
    let close = text::first_index(option, ']');
    if option.len() > 0 && option[0] == '[' && close + 1 < option.len() {
        option.take(close + 1) + seq![' '] + text::trim_start(option.skip(close + 1))
    } else {
        option
    }
}

/// `[00]Foo` reads `[00] Foo`.
pub fn option_pretty(opt: &str) -> (r: String)
    ensures
        r@ == pretty(opt@),
{
    let s: Vec<char> = text::to_chars(opt);
    let close: usize = text::find_char(&s, ']');
    if s.len() > 0 && s[0] == '[' && close < s.len() && close + 1 < s.len() {
        let mut r: Vec<char> = text::clone_chars(slice_subrange(&s, 0, close + 1));
        r.push(' ');
        text::append_chars(&mut r, text::trim_start_chars(slice_subrange(&s, close + 1, s.len())));
        proof {
            assert(s@.subrange(close + 1, s@.len() as int) =~= s@.skip(close + 1));
            assert(r@ =~= pretty(opt@));
        }
        return text::to_text(&r);
    }
    text::to_text(&s)
}

// ---------------------------------------------------------------------------
// Reading
// ---------------------------------------------------------------------------

/// A dump that was read.
pub struct LoadedNvram {
    pub settings: Vec<BiosSetting>,
    pub original_lines: Vec<String>,
    /// The components of the path of the file, if it came from one.
    pub path: Option<Vec<String>>,
}

/// A dump as plain texts and numbers.
#[verifier::ext_equal]
pub struct NvramView {
    pub settings: Seq<SettingView>,
    pub original_lines: Seq<Seq<char>>,
    pub path: Option<Seq<Seq<char>>>,
}

/// The texts of an optional vector of strings.
pub open spec fn optional_texts(v: Option<Vec<String>>) -> Option<Seq<Seq<char>>> {
    match v {
        Some(t) => Some(text::texts(t@)),
        None => None,
    }
}

impl View for LoadedNvram {
    type V = NvramView;

    open spec fn view(&self) -> NvramView {
        NvramView {
            settings: setting_views(self.settings@),
            original_lines: text::texts(self.original_lines@),
            path: optional_texts(self.path),
        }
    }
}

/// The setting that a `Setup Question` line starts.
pub open spec fn new_setting(question: Seq<char>) -> SettingView {
    SettingView {
        setup_question: question,
        help_string: seq![],
        token: seq![],
        offset: seq![],
        width: seq![],
        bios_default: None,
        options: seq![],
        active_option: None,
        value: None,
        content: seq![],
    }
}

/// `s` with one more option, which is the active one if it has a star.
pub open spec fn add_option(s: SettingView, option: grammar::Choice) -> SettingView {
    SettingView {
        options: s.options.push(option.label),
        active_option: if option.star {
            Some(s.options.len() as int)
        } else {
            s.active_option
        },
        ..s
    }
}

/// `s` with more options.
pub open spec fn add_options(s: SettingView, found: Seq<grammar::Choice>) -> SettingView
    decreases found.len(),
{
    if found.len() == 0 {
        s
    } else {
        add_option(add_options(s, found.drop_last()), found.last())
    }
}

/// `s` after a line of its block, other than the one that starts it.
pub open spec fn with_line(s: SettingView, kind: grammar::Kind, statement: Seq<char>) -> SettingView {
    match kind {
        grammar::Kind::Help(v) => SettingView { help_string: v, ..s },
        grammar::Kind::Token(v) => SettingView { token: v, ..s },
        grammar::Kind::Offset(v) => SettingView { offset: v, ..s },
        grammar::Kind::Width(v) => SettingView { width: v, ..s },
        grammar::Kind::BiosDefault(v) => SettingView { bios_default: Some(v), ..s },
        grammar::Kind::Options(v) => add_options(s, grammar::options_on(v)),
        grammar::Kind::Value(v) => SettingView { value: Some(v), ..s },
        grammar::Kind::Bracket => add_options(s, grammar::options_on(statement)),
        grammar::Kind::Other => SettingView { content: s.content.push(statement), ..s },
        _ => s,
    }
}

/// `s` at the end of its block: a single option that is not marked is a value.
pub open spec fn finish(s: SettingView) -> SettingView {
    if s.options.len() == 1 && s.active_option is None {
        SettingView { value: Some(s.options[0]), options: seq![], ..s }
    } else {
        s
    }
}

/// How far a dump has been read: the settings whose blocks have ended, and the one whose block
/// has not.
#[verifier::ext_equal]
pub struct ReadState {
    pub done: Seq<SettingView>,
    pub current: Option<SettingView>,
}

/// The settings read so far, if the dump ended here.
pub open spec fn finished(st: ReadState) -> Seq<SettingView> {
    match st.current {
        Some(s) => st.done.push(finish(s)),
        None => st.done,
    }
}

/// One more line is read.
pub open spec fn read_line(st: ReadState, line: Seq<char>) -> ReadState {
    let statement = grammar::statement(line);
    let kind = grammar::kind_of(statement);
    match kind {
        grammar::Kind::Setup(question) => ReadState {
            done: finished(st),
            current: Some(new_setting(question)),
        },
        _ => match st.current {
            Some(s) => ReadState { current: Some(with_line(s, kind, statement)), ..st },
            None => st,
        },
    }
}

/// The lines are read in order.
pub open spec fn read_lines(lines: Seq<Seq<char>>) -> ReadState
    decreases lines.len(),
{
    if lines.len() == 0 {
        ReadState { done: seq![], current: None }
    } else {
        read_line(read_lines(lines.drop_last()), lines.last())
    }
}

/// The settings that a dump with these lines lists.
pub open spec fn listed_settings(lines: Seq<Seq<char>>) -> Seq<SettingView> {
    finished(read_lines(lines))
}

/// Adds the options found on a line to `s`.
fn push_options(s: &mut BiosSetting, found: Vec<OptionChoice>)
    ensures
        final(s)@ == add_options(old(s)@, grammar::choices(found@)),
{
    let mut i: usize = 0;
    let ghost all = grammar::choices(found@);
    while i < found.len()
        invariant
            i <= found.len(),
            all == grammar::choices(found@),
            s@ == add_options(old(s)@, all.take(i as int)),
        decreases found.len() - i,
    {
        let ghost before = s@;
        let ghost options = s.options@;
        let index: usize = s.options.len();
        s.options.push(found[i].label.clone());
        if found[i].star {
            s.active_option = Some(index);
        }
        proof {
            assert(text::texts(s.options@) =~= text::texts(options).push(found@[i as int].label@));
            assert(all.take(i + 1).drop_last() =~= all.take(i as int));
            assert(s@ =~= add_option(before, all[i as int]));
        }
        i += 1;
    }
    proof {
        assert(all.take(all.len() as int) =~= all);
    }
}

/// `s` after a line of its block.
fn extend_setting(s: &mut BiosSetting, kind: LineKind, statement: &[char])
    ensures
        final(s)@ == with_line(old(s)@, kind@, statement@),
{
    match kind {
        LineKind::Help(v) => {
            s.help_string = v;
        },
        LineKind::Token(v) => {
            s.token = v;
        },
        LineKind::Offset(v) => {
            s.offset = v;
        },
        LineKind::Width(v) => {
            s.width = v;
        },
        LineKind::BiosDefault(v) => {
            s.bios_default = Some(v);
        },
        LineKind::Options(v) => {
            push_options(s, grammar::parse_options(&text::to_chars(v.as_str())));
        },
        LineKind::Value(v) => {
            s.value = Some(v);
        },
        LineKind::Bracket => {
            push_options(s, grammar::parse_options(statement));
        },
        LineKind::Other => {
            let ghost content = s.content@;
            s.content.push(text::to_text(statement));
            assert(text::texts(s.content@) =~= text::texts(content).push(statement@));
        },
        _ => {},
    }
}

/// The setting that a `Setup Question` line starts.
fn start_setting(question: String) -> (r: BiosSetting)
    ensures
        r@ == new_setting(question@),
{
    let r = BiosSetting {
        setup_question: question,
        help_string: String::new(),
        token: String::new(),
        offset: String::new(),
        width: String::new(),
        bios_default: None,
        options: Vec::new(),
        active_option: None,
        value: None,
        content: Vec::new(),
    };
    assert(r@ =~= new_setting(question@));
    r
}

/// Ends the block of a setting.
fn finish_setting(s: BiosSetting) -> (r: BiosSetting)
    ensures
        r@ == finish(s@),
{
    let mut r: BiosSetting = s;
    if r.options.len() == 1 && r.active_option.is_none() {
        r.value = Some(r.options[0].clone());
        r.options.clear();
        assert(text::texts(r.options@) =~= seq![]);
        assert(r@ =~= finish(s@));
    }
    r
}

/// The view of a vector of settings with one more.
pub proof fn lemma_setting_views_push(v: Seq<BiosSetting>, s: BiosSetting)
    ensures
        setting_views(v.push(s)) == setting_views(v).push(s@),
{
    assert(setting_views(v.push(s)) =~= setting_views(v).push(s@));
}

/// The settings that a dump with these lines lists.
pub fn parse_settings(lines: &[String]) -> (r: Vec<BiosSetting>)
    ensures
        setting_views(r@) == listed_settings(text::texts(lines@)),
{
    let mut done: Vec<BiosSetting> = Vec::new();
    let mut current: Option<BiosSetting> = None;
    let mut i: usize = 0;
    let ghost all = text::texts(lines@);
    proof {
        assert(setting_views(done@) =~= seq![]);
    }
    while i < lines.len()
        invariant
            i <= lines.len(),
            all == text::texts(lines@),
            setting_views(done@) == read_lines(all.take(i as int)).done,
            match current {
                Some(s) => read_lines(all.take(i as int)).current == Some(s@),
                None => read_lines(all.take(i as int)).current is None,
            },
        decreases lines.len() - i,
    {
        proof {
            assert(all.take(i + 1).drop_last() =~= all.take(i as int));
            assert(all.take(i + 1).last() == lines@[i as int]@);
        }
        let line: Vec<char> = text::to_chars(lines[i].as_str());
        let statement: &[char] = grammar::statement_chars(&line);
        match grammar::classify(statement) {
            LineKind::Setup(question) => {
                if let Some(s) = current {
                    let f: BiosSetting = finish_setting(s);
                    proof {
                        lemma_setting_views_push(done@, f);
                    }
                    done.push(f);
                }
                current = Some(start_setting(question));
            },
            kind => {
                if let Some(s) = current {
                    let mut t: BiosSetting = s;
                    extend_setting(&mut t, kind, statement);
                    current = Some(t);
                } else {
                    current = None;
                }
            },
        }
        i += 1;
    }
    proof {
        assert(all.take(all.len() as int) =~= all);
    }
    if let Some(s) = current {
        let f: BiosSetting = finish_setting(s);
        proof {
            lemma_setting_views_push(done@, f);
        }
        done.push(f);
    }
    done
}

/// The dump that a text holds.
pub open spec fn read_text(s: Seq<char>, path: Option<Seq<Seq<char>>>) -> NvramView {
    NvramView {
        settings: listed_settings(text::lines(s)),
        original_lines: text::lines(s),
        path,
    }
}

/// Reads the text of a dump.
pub fn parse_nvram_text(s: &str) -> (r: LoadedNvram)
    ensures
        r@ == read_text(s@, None),
{
    let original_lines: Vec<String> = text::split_lines(&text::to_chars(s));
    let settings: Vec<BiosSetting> = parse_settings(&original_lines);
    LoadedNvram { settings, original_lines, path: None }
}

/// Reads a dump from the bytes of the file with these path components.
pub fn load_nvram(path: &[String], bytes: &[u8]) -> (r: LoadedNvram)
    requires
        bytes@.len() <= isize::MAX / 8,
    ensures
        r@ == read_text(codec::file_text(bytes@), Some(text::texts(path@))),
{
    let content: String = codec::decode_file(bytes);
    let mut r: LoadedNvram = parse_nvram_text(content.as_str());
    r.path = Some(text::clone_strings(path));
    r
}

// ---------------------------------------------------------------------------
// Writing
// ---------------------------------------------------------------------------

/// The last setting with the key `key`, if there is one.
pub open spec fn last_with_key(
    settings: Seq<SettingView>,
    key: (Seq<char>, Seq<char>, Seq<char>),
) -> Option<int>
    decreases settings.len(),
{
    if settings.len() == 0 {
        None
    } else if key_of(settings.last()) == Some(key) {
        Some(settings.len() - 1)
    } else {
        last_with_key(settings.drop_last(), key)
    }
}

/// Where in a dump the writer is: the question and the token of the block it is in, the position of
/// the setting that the block is about, once that is known, how many options the block has listed so
/// far, and whether a list of options in it has been written.
#[verifier::ext_equal]
pub struct WriteState {
    pub question: Option<Seq<char>>,
    pub token: Option<Seq<char>>,
    pub index: Option<int>,
    pub passed: int,
    pub listing: bool,
}

/// The setting that the writer is at has options.
pub open spec fn has_options(st: WriteState, settings: Seq<SettingView>) -> bool {
    st.index matches Some(n) && settings[n].options.len() > 0
}

/// The writer passes the statement `statement`.
pub open spec fn pass(
    st: WriteState,
    statement: Seq<char>,
    settings: Seq<SettingView>,
) -> WriteState {
    match grammar::kind_of(statement) {
        grammar::Kind::Setup(v) => WriteState {
            question: Some(v),
            token: None,
            index: None,
            passed: 0,
            listing: false,
        },
        grammar::Kind::Token(v) => WriteState { token: Some(v), ..st },
        grammar::Kind::Offset(v) => WriteState {
            index: match (st.question, st.token) {
                (Some(q), Some(t)) => last_with_key(settings, (q, t, v)),
                _ => None,
            },
            ..st
        },
        grammar::Kind::Options(v) => WriteState {
            passed: st.passed + grammar::options_on(v).len(),
            listing: st.listing || has_options(st, settings),
            ..st
        },
        grammar::Kind::Bracket => WriteState {
            passed: st.passed + grammar::options_on(statement).len(),
            ..st
        },
        _ => st,
    }
}

/// The position behind the equals sign of a line.
pub open spec fn key_end(line: Seq<char>) -> int {
    text::first_index(line, '=') + 1
}

/// The position of the first character from `from` on that is not white space, the comment aside.
pub open spec fn body_start(line: Seq<char>, from: int) -> int {
    from + text::leading_space(grammar::strip_comment(line).skip(from))
}

/// What a line states from `from` on.
pub open spec fn body_of(line: Seq<char>, from: int) -> Seq<char> {
    grammar::strip_comment(line).skip(body_start(line, from))
}

/// The end of a line behind what it states: white space and a comment.
pub open spec fn tail_of(line: Seq<char>) -> Seq<char> {
    line.skip(grammar::strip_comment(line).len() as int)
}

/// `line` with `body` in place of what it states from `from` on.
pub open spec fn with_body(line: Seq<char>, from: int, body: Seq<char>) -> Seq<char> {
    line.take(body_start(line, from)) + body + tail_of(line)
}

/// A line of options with the star moved to the active one. The options on it are counted from `k`
/// on.
pub open spec fn option_line(
    line: Seq<char>,
    from: int,
    k: int,
    active: Option<int>,
) -> Seq<char> {
    with_body(line, from, grammar::restarred_options(body_of(line, from), k, active))
}

/// What keeps the value `v` apart from a comment directly behind it, so that a slash at its end does
/// not become a part of the comment.
pub open spec fn value_gap(v: Seq<char>, tail: Seq<char>) -> Seq<char> {
    if v.len() > 0 && v.last() == '/' && tail.len() > 0 && tail[0] == '/' {
        seq!['\t']
    } else {
        seq![]
    }
}

/// What stands between the key of a line and its comment.
pub open spec fn field_of(line: Seq<char>) -> Seq<char> {
    line.subrange(key_end(line), line.len() - text::trim_start(tail_of(line)).len())
}

/// `field` is `v` with nothing but white space around it.
pub open spec fn holds(field: Seq<char>, v: Seq<char>) -> bool {
    exists|a: int| #[trigger] holds_at(field, v, a)
}

/// `v` stands in `field` at `a`, with nothing but white space around it.
pub open spec fn holds_at(field: Seq<char>, v: Seq<char>, a: int) -> bool {
    &&& 0 <= a <= a + v.len() <= field.len()
    &&& field.subrange(a, a + v.len()) == v
    &&& text::blank(field.take(a))
    &&& text::blank(field.skip(a + v.len()))
}

/// A line of a value with the value `v`, as it is, in place of its own. A line that holds `v` already
/// stays.
pub open spec fn value_line(line: Seq<char>, v: Seq<char>) -> Seq<char> {
    if holds(field_of(line), v) {
        line
    } else {
        with_body(line, key_end(line), v + value_gap(v, tail_of(line)))
    }
}

/// A line as it is written: in a list of options the star moves to the active one, and a value is
/// replaced. Lines that continue a list are written if the list started on a line that was. Every
/// other line stays.
pub open spec fn written_line(
    st: WriteState,
    line: Seq<char>,
    settings: Seq<SettingView>,
) -> Seq<char> {
    match (grammar::kind_of(grammar::statement(line)), st.index) {
        (grammar::Kind::Options(_), Some(n)) if settings[n].options.len() > 0 => option_line(
            line,
            key_end(line),
            st.passed,
            settings[n].active_option,
        ),
        (grammar::Kind::Bracket, Some(n)) if st.listing && settings[n].options.len()
            > 0 => option_line(line, 0, st.passed, settings[n].active_option),
        (grammar::Kind::Value(_), Some(n)) if settings[n].value is Some => value_line(
            line,
            settings[n].value->0,
        ),
        _ => line,
    }
}

/// The writer before the first line.
pub open spec fn write_start() -> WriteState {
    WriteState { question: None, token: None, index: None, passed: 0, listing: false }
}

/// The writer before line `i`.
pub open spec fn writer_at(
    lines: Seq<Seq<char>>,
    settings: Seq<SettingView>,
    i: int,
) -> WriteState
    decreases i,
{
    if i <= 0 {
        write_start()
    } else {
        pass(
            writer_at(lines, settings, i - 1),
            grammar::statement(lines[i - 1]),
            settings,
        )
    }
}

/// The lines of the dump with `settings` written into them.
pub open spec fn patched_lines(
    lines: Seq<Seq<char>>,
    settings: Seq<SettingView>,
) -> Seq<Seq<char>> {
    Seq::new(lines.len(), |i: int| written_line(writer_at(lines, settings, i), lines[i], settings))
}

/// A setting found by its key is one of the settings and has that key.
pub proof fn lemma_last_with_key(
    settings: Seq<SettingView>,
    key: (Seq<char>, Seq<char>, Seq<char>),
)
    ensures
        match last_with_key(settings, key) {
            Some(n) => 0 <= n < settings.len() && key_of(settings[n]) == Some(key) && (forall|j: int|
                n < j < settings.len() ==> key_of(#[trigger] settings[j]) != Some(key)),
            None => forall|j: int|
                0 <= j < settings.len() ==> key_of(#[trigger] settings[j]) != Some(key),
        },
    decreases settings.len(),
{
    if settings.len() > 0 && key_of(settings.last()) != Some(key) {
        let t = settings.drop_last();
        lemma_last_with_key(t, key);
        assert forall|j: int| 0 <= j < t.len() implies #[trigger] settings[j] == t[j] by {}
    }
}

/// The last setting with this key, if there is one.
fn find_by_key(settings: &[BiosSetting], question: &str, token: &str, offset: &str) -> (r: Option<
    usize,
>)
    ensures
        optional_index(r) == last_with_key(
            setting_views(settings@),
            (question@, token@, offset@),
        ),
        r matches Some(n) ==> n < settings@.len(),
{
    let mut n: usize = settings.len();
    let ghost all = setting_views(settings@);
    let ghost key = (question@, token@, offset@);
    proof {
        assert(all.take(all.len() as int) =~= all);
    }
    while n > 0
        invariant
            n <= settings.len(),
            all == setting_views(settings@),
            key == (question@, token@, offset@),
            last_with_key(all, key) == last_with_key(all.take(n as int), key),
        decreases n,
    {
        proof {
            assert(all.take(n as int).drop_last() =~= all.take(n - 1));
        }
        if let Some(k) = settings[n - 1].key() {
            if text::text_eq(k.0.as_str(), question) && text::text_eq(k.1.as_str(), token)
                && text::text_eq(k.2.as_str(), offset) {
                return Some(n - 1);
            }
        }
        n -= 1;
    }
    None
}

/// A statement with a key has an equals sign.
pub proof fn lemma_key_has_equals(s: Seq<char>)
    requires
        grammar::kind_of(s) is Options || grammar::kind_of(s) is Value,
    ensures
        0 <= text::first_index(s, '=') < s.len(),
{
    let word = if grammar::kind_of(s) is Options {
        "options"@
    } else {
        "value"@
    };
    let t = s.skip(word.len() as int);
    text::lemma_leading_space(t);
    text::lemma_first_index(s, '=');
    assert(grammar::after_equals(t) is Some);
    let p = word.len() + text::leading_space(t);
    assert(s[p] == text::trim_start(t)[0]);
}

/// What stands in front of a comment is a part of the line.
pub proof fn lemma_strip_comment_prefix(s: Seq<char>)
    ensures
        grammar::strip_comment(s).len() <= s.len(),
        grammar::strip_comment(s) == s.take(grammar::strip_comment(s).len() as int),
    decreases s.len(),
{
    let r = grammar::strip_comment(s);
    if s.len() == 0 || grammar::is_comment_tail(s) {
        assert(s.take(0) =~= r);
    } else {
        let t = s.drop_first();
        lemma_strip_comment_prefix(t);
        let u = grammar::strip_comment(t);
        assert forall|i: int| 0 <= i < r.len() implies #[trigger] r[i] == s[i] by {
            if i > 0 {
                assert(u[i - 1] == t.take(u.len() as int)[i - 1]);
            }
        }
        assert(r =~= s.take(r.len() as int));
    }
}

/// The key of a line stands in front of its comment.
pub proof fn lemma_key_end(line: Seq<char>)
    requires
        grammar::kind_of(grammar::statement(line)) is Options || grammar::kind_of(
            grammar::statement(line),
        ) is Value,
    ensures
        0 < key_end(line) <= grammar::strip_comment(line).len(),
{
    let s = grammar::strip_comment(line);
    let t = grammar::statement(line);
    lemma_strip_comment_prefix(line);
    lemma_key_has_equals(t);
    text::lemma_first_index(t, '=');
    text::lemma_trim(s);
    let p = text::leading_space(s) + text::first_index(t, '=');
    assert(t[text::first_index(t, '=')] == s[p]);
    assert(s[p] == line[p]);
    text::lemma_first_index(line, '=');
    if text::first_index(line, '=') > p {
        assert(line[p] != '=');
    }
}

/// `line` with `body` in place of what it states from `from` on.
fn replace_body(line: &[char], from: usize, body: &[char]) -> (r: Vec<char>)
    requires
        from <= grammar::strip_comment(line@).len(),
    ensures
        r@ == with_body(line@, from as int, body@),
{
    proof {
        lemma_strip_comment_prefix(line@);
    }
    let stated: &[char] = grammar::strip_comment_chars(line);
    let rest: &[char] = slice_subrange(stated, from, stated.len());
    assert(rest@ =~= stated@.skip(from as int));
    proof {
        text::lemma_leading_space(rest@);
    }
    let start: usize = from + text::count_leading_space(rest);
    let mut r: Vec<char> = text::clone_chars(slice_subrange(line, 0, start));
    text::append_chars(&mut r, body);
    text::append_chars(&mut r, slice_subrange(line, stated.len(), line.len()));
    proof {
        assert(line@.subrange(0, start as int) =~= line@.take(start as int));
        assert(line@.subrange(stated@.len() as int, line@.len() as int) =~= tail_of(line@));
    }
    r
}

/// A line of options with the star moved to the active one.
fn render_options(line: &[char], from: usize, k: u128, active: Option<usize>) -> (r: Vec<char>)
    requires
        from <= grammar::strip_comment(line@).len(),
        k + line@.len() <= u128::MAX,
    ensures
        r@ == option_line(line@, from as int, k as int, optional_index(active)),
{
    proof {
        lemma_strip_comment_prefix(line@);
    }
    let stated: &[char] = grammar::strip_comment_chars(line);
    let rest: &[char] = slice_subrange(stated, from, stated.len());
    assert(rest@ =~= stated@.skip(from as int));
    proof {
        text::lemma_leading_space(rest@);
    }
    let body: &[char] = text::trim_start_chars(rest);
    assert(body@ =~= body_of(line@, from as int));
    replace_body(line, from, &grammar::restar_options(body, k, active))
}

fn is_blank(s: &[char]) -> (r: bool)
    ensures
        r == text::blank(s@),
{
    let n: usize = text::count_leading_space(s);
    proof {
        text::lemma_leading_space(s@);
    }
    n == s.len()
}

/// Whether `field` is `v` with nothing but white space around it.
fn holds_value(field: &[char], v: &[char]) -> (r: bool)
    ensures
        r == holds(field@, v@),
{
    if v.len() > field.len() {
        proof {
            if holds(field@, v@) {
                let a = choose|a: int| #[trigger] holds_at(field@, v@, a);
                assert(0 <= a <= a + v@.len() <= field@.len());
            }
        }
        return false;
    }
    let last: usize = field.len() - v.len();
    let mut a: usize = 0;
    while a <= last
        invariant
            last + v.len() == field.len(),
            a <= last,
            forall|b: int| 0 <= b < a ==> !(#[trigger] holds_at(field@, v@, b)),
        decreases last - a,
    {
        let part: &[char] = slice_subrange(field, a, a + v.len());
        let front: &[char] = slice_subrange(field, 0, a);
        let rest: &[char] = slice_subrange(field, a + v.len(), field.len());
        proof {
            assert(front@ =~= field@.take(a as int));
            assert(rest@ =~= field@.skip(a + v@.len()));
        }
        if is_blank(front) && is_blank(rest) && text::chars_eq(part, v) {
            assert(holds_at(field@, v@, a as int));
            return true;
        }
        assert(!holds_at(field@, v@, a as int));
        if a == last {
            proof {
                if holds(field@, v@) {
                    let b = choose|b: int| #[trigger] holds_at(field@, v@, b);
                    assert(0 <= b <= last);
                }
            }
            return false;
        }
        a += 1;
    }
    false
}

/// A line of a value with the value `v` in place of its own.
fn render_value(line: &[char], v: &str) -> (r: Vec<char>)
    requires
        grammar::kind_of(grammar::statement(line@)) is Value,
    ensures
        r@ == value_line(line@, v@),
{
    proof {
        lemma_strip_comment_prefix(line@);
        lemma_key_end(line@);
    }
    let mut value: Vec<char> = text::to_chars(v);
    let n: usize = grammar::strip_comment_chars(line).len();
    let from: usize = text::find_char(line, '=') + 1;
    let tail: &[char] = slice_subrange(line, n, line.len());
    assert(tail@ =~= tail_of(line@));
    proof {
        text::lemma_leading_space(tail@);
    }
    let comment: usize = text::trim_start_chars(tail).len();
    let field: &[char] = slice_subrange(line, from, line.len() - comment);
    if holds_value(field, &value) {
        return text::clone_chars(line);
    }
    if value.len() > 0 && value[value.len() - 1] == '/' && tail.len() > 0 && tail[0] == '/' {
        value.push('\t');
    }
    assert(value@ =~= v@ + value_gap(v@, tail_of(line@)));
    replace_body(line, from, &value)
}

/// The number of options on a line is at most its length.
pub proof fn lemma_options_on_count(s: Seq<char>)
    ensures
        grammar::options_on(s).len() <= s.len(),
{
    let t = text::trim(s);
    text::lemma_trim(s);
    lemma_options_in_count(t);
    if t.len() == 0 {
        assert(text::strip_leading(t, '*') == t);
        assert(text::trim(t) == t);
    }
}

proof fn lemma_options_in_count(s: Seq<char>)
    ensures
        grammar::options_in(s).len() <= s.len(),
    decreases s.len(),
{
    let n = text::first_index(s, '[');
    if 0 <= n < s.len() {
        lemma_options_in_count(s.skip(n).drop_first());
    }
}

/// The lines of the dump with `settings` written into them: the layout stays, stars move to the
/// active options and values are replaced.
pub fn patch_lines(original_lines: &[String], settings: &[BiosSetting]) -> (r: Vec<String>)
    ensures
        text::texts(r@) == patched_lines(text::texts(original_lines@), setting_views(settings@)),
{
    let ghost all = text::texts(original_lines@);
    let ghost views = setting_views(settings@);
    let mut out: Vec<String> = Vec::new();
    let mut question: Option<String> = None;
    let mut token: Option<String> = None;
    let mut index: Option<usize> = None;
    let mut passed: u128 = 0;
    let mut listing: bool = false;
    let mut i: usize = 0;
    while i < original_lines.len()
        invariant
            i <= original_lines@.len(),
            all == text::texts(original_lines@),
            views == setting_views(settings@),
            writer_at(all, views, i as int) == (WriteState {
                question: optional_text(question),
                token: optional_text(token),
                index: optional_index(index),
                passed: passed as int,
                listing,
            }),
            index matches Some(n) ==> n < settings@.len(),
            passed <= i * usize::MAX,
            text::texts(out@) == patched_lines(all, views).take(i as int),
        decreases original_lines.len() - i,
    {
        let line: Vec<char> = text::to_chars(original_lines[i].as_str());
        let statement: &[char] = grammar::statement_chars(&line);
        let ghost before = out@;
        let ghost st = writer_at(all, views, i as int);
        proof {
            assert(line@ == all[i as int]);
            assert((i + 1) * usize::MAX == i * usize::MAX + usize::MAX) by (nonlinear_arith);
            assert((i + 1) * usize::MAX <= u128::MAX) by (nonlinear_arith)
                requires
                    i + 1 <= usize::MAX,
            ;
            lemma_strip_comment_prefix(line@);
            text::lemma_trim(grammar::strip_comment(line@));
            lemma_options_on_count(statement@);
        }
        assert(passed + line.len() <= u128::MAX);
        let mut written: Vec<char> = Vec::new();
        let mut is_written: bool = false;
        match grammar::classify(statement) {
            LineKind::Setup(v) => {
                question = Some(v);
                token = None;
                index = None;
                passed = 0;
                listing = false;
            },
            LineKind::Token(v) => {
                token = Some(v);
            },
            LineKind::Offset(v) => {
                index = match (&question, &token) {
                    (Some(q), Some(t)) => find_by_key(
                        settings,
                        q.as_str(),
                        t.as_str(),
                        v.as_str(),
                    ),
                    _ => None,
                };
            },
            LineKind::Options(v) => {
                if let Some(n) = index {
                    if settings[n].options.len() > 0 {
                        proof {
                            lemma_key_end(line@);
                        }
                        let from: usize = text::find_char(&line, '=') + 1;
                        written = render_options(&line, from, passed, settings[n].active_option);
                        is_written = true;
                        listing = true;
                    }
                }
                let found: Vec<OptionChoice> = grammar::parse_options(
                    &text::to_chars(v.as_str()),
                );
                assert(grammar::choices(found@).len() == found@.len());
                passed = passed + found.len() as u128;
            },
            LineKind::Bracket => {
                if let Some(n) = index {
                    if listing && settings[n].options.len() > 0 {
                        written = render_options(&line, 0, passed, settings[n].active_option);
                        is_written = true;
                    }
                }
                let found: Vec<OptionChoice> = grammar::parse_options(statement);
                assert(grammar::choices(found@).len() == found@.len());
                passed = passed + found.len() as u128;
            },
            LineKind::Value(_) => {
                if let Some(n) = index {
                    if let Some(v) = &settings[n].value {
                        written = render_value(&line, v.as_str());
                        is_written = true;
                    }
                }
            },
            _ => {},
        }
        if is_written {
            out.push(text::to_text(&written));
        } else {
            out.push(original_lines[i].clone());
        }
        proof {
            let new_line = written_line(st, all[i as int], views);
            assert(out@.last()@ == new_line);
            assert(text::texts(out@) =~= text::texts(before).push(new_line));
            assert(patched_lines(all, views).take(i + 1) =~= patched_lines(all, views).take(
                i as int,
            ).push(new_line));
        }
        i += 1;
    }
    proof {
        assert(text::texts(out@) =~= patched_lines(all, views));
    }
    out
}

/// The bytes of the dump with `settings` written into it.
pub fn save_nvram(original_lines: &[String], settings: &[BiosSetting]) -> (r: Vec<u8>)
    ensures
        r@ == codec::encoded_lines(
            patched_lines(text::texts(original_lines@), setting_views(settings@)),
        ),
{
    codec::encode_lines(&patch_lines(original_lines, settings))
}

} // verus!
