//! What the terminal UI shows and what its keys do, apart from drawing.

use vstd::prelude::*;
use crate::app::{next_view, App, AppView, InputView, Scope, ViewMode};
use crate::deletion::{planned_views, DeletionPlan};
use crate::filters::FilterView;
use crate::paths::path_key;
use crate::scanner::FileView;
use crate::selection::{cleared, SelectMode};
use crate::text::{chars_of, slice_of, text_of};

verus! {

/// A path shortened for display, with both its ends.
pub open spec fn middle_cut(s: Seq<char>, max: int) -> Seq<char> {
    if max < 8 || s.len() <= max {
        s
    } else {
        let head = (max - 1) / 3;
        let tail = max - 1 - head;
        s.take(head).push('…') + s.skip(s.len() - tail)
    }
}

/// Shorten a path for display, keeping both ends. Works on characters, so
/// non-ASCII paths never split a code point.
pub fn truncate_middle(s: &str, max: usize) -> (r: String)
    ensures
        r@ == middle_cut(s@, max as int),
{
    let v = chars_of(s);
    let n = v.len();
    if max < 8 || n <= max {
        return s.to_owned();
    }
    let keep = max - 1;
    let head = keep / 3;
    let tail = keep - head;
    assert(v@.subrange(0, head as int) =~= v@.take(head as int));
    assert(v@.subrange(n - tail, n as int) =~= v@.skip(n - tail));
    let mut out = text_of(&slice_of(&v, 0, head));
    out.push('…');
    out.append(text_of(&slice_of(&v, n - tail, n)).as_str());
    out
}

/// A text that is too long is cut to exactly the length asked for; any other
/// is left alone.
pub proof fn truncation_is_exact(s: Seq<char>, max: int)
    requires
        max >= 8,
    ensures
        middle_cut(s, max).len() == if s.len() <= max {
            s.len() as int
        } else {
            max
        },
        s.len() <= max ==> middle_cut(s, max) == s,
{
}

// ----- keys ----------------------------------------------------------------

#[derive(Debug, Clone, Copy, PartialEq, Eq, Structural)]
pub enum Key {
    Char(char),
    Enter,
    Esc,
    Backspace,
    Tab,
    Up,
    Down,
    Left,
    Right,
    PageUp,
    PageDown,
    Home,
    End,
    Other,
}

/// What a key asks for.
#[derive(Debug, Clone, Copy, PartialEq, Eq, Structural)]
pub enum Command {
    Nothing,
    ConfirmDelete,
    CancelDelete,
    CancelInput,
    CommitInput,
    PopInput,
    PushInput(char),
    CloseMenu,
    /// Chosen from the mark menu, which closes.
    MarkFromMenu(SelectMode, Scope),
    Quit,
    CycleView,
    ToggleHelp,
    BackToDuplicates,
    NextFile,
    PreviousFile,
    NextGroup,
    PreviousGroup,
    FirstGroup,
    LastGroup,
    ToggleMark,
    Mark(SelectMode, Scope),
    OpenMenu,
    ClearMarks(Scope),
    RequestDelete(Scope),
    StartRename,
    RenameKeeper,
    OpenFile,
    StartFilter,
    CycleSize,
    CycleKind,
    ClearFilter,
    TogglePreview,
}

pub open spec fn is_upper(c: char) -> bool {
    'A' <= c <= 'Z'
}

/// The key in the confirmation dialog, which swallows every key.
pub open spec fn confirm_command(key: Key) -> Command {
    match key {
        Key::Char(c) => if c == 'y' || c == 'Y' {
            Command::ConfirmDelete
        } else if c == 'n' || c == 'N' || c == 'q' {
            Command::CancelDelete
        } else {
            Command::Nothing
        },
        Key::Enter => Command::ConfirmDelete,
        Key::Esc => Command::CancelDelete,
        _ => Command::Nothing,
    }
}

/// The key while a text is edited.
pub open spec fn input_command(key: Key, ctrl: bool) -> Command {
    match key {
        Key::Esc => Command::CancelInput,
        Key::Enter => Command::CommitInput,
        Key::Backspace => Command::PopInput,
        Key::Char(c) => if ctrl {
            Command::Nothing
        } else {
            Command::PushInput(c)
        },
        _ => Command::Nothing,
    }
}

/// The key in the mark menu: a letter applies to the group, a capital to all.
pub open spec fn menu_command(key: Key) -> Command {
    match key {
        Key::Esc => Command::CloseMenu,
        Key::Char(c) => if c == 'm' || c == 'q' {
            Command::CloseMenu
        } else {
            match SelectMode::lettered(c) {
                Some(mode) => Command::MarkFromMenu(
                    mode,
                    if is_upper(c) {
                        Scope::AllGroups
                    } else {
                        Scope::CurrentGroup
                    },
                ),
                None => Command::Nothing,
            }
        },
        _ => Command::Nothing,
    }
}

pub open spec fn char_command(c: char) -> Command {
    if c == 'q' {
        Command::Quit
    } else if c == '?' {
        Command::ToggleHelp
    } else if c == 'j' {
        Command::NextFile
    } else if c == 'k' {
        Command::PreviousFile
    } else if c == 'n' {
        Command::NextGroup
    } else if c == 'p' {
        Command::PreviousGroup
    } else if c == 'g' {
        Command::FirstGroup
    } else if c == 'G' {
        Command::LastGroup
    } else if c == ' ' {
        Command::ToggleMark
    } else if c == 'a' {
        Command::Mark(SelectMode::Suggested, Scope::CurrentGroup)
    } else if c == 'A' {
        Command::Mark(SelectMode::Suggested, Scope::AllGroups)
    } else if c == 'o' {
        Command::Mark(SelectMode::AllButKeeper, Scope::CurrentGroup)
    } else if c == 'O' {
        Command::Mark(SelectMode::AllButKeeper, Scope::AllGroups)
    } else if c == 'm' {
        Command::OpenMenu
    } else if c == 'c' {
        Command::ClearMarks(Scope::CurrentGroup)
    } else if c == 'C' {
        Command::ClearMarks(Scope::AllGroups)
    } else if c == 'd' {
        Command::RequestDelete(Scope::CurrentGroup)
    } else if c == 'D' {
        Command::RequestDelete(Scope::AllGroups)
    } else if c == 'r' {
        Command::StartRename
    } else if c == 'N' {
        Command::RenameKeeper
    } else if c == 'e' {
        Command::OpenFile
    } else if c == '/' {
        Command::StartFilter
    } else if c == 'z' {
        Command::CycleSize
    } else if c == 't' {
        Command::CycleKind
    } else if c == 'x' {
        Command::ClearFilter
    } else if c == 'v' {
        Command::TogglePreview
    } else {
        Command::Nothing
    }
}

/// The key where nothing else has it.
pub open spec fn main_command(mode: ViewMode, key: Key) -> Command {
    match key {
        Key::Char(c) => char_command(c),
        Key::Tab => Command::CycleView,
        Key::Esc => if mode != ViewMode::Duplicates {
            Command::BackToDuplicates
        } else {
            Command::Nothing
        },
        Key::Down => Command::NextFile,
        Key::Up => Command::PreviousFile,
        Key::Right | Key::PageDown => Command::NextGroup,
        Key::Left | Key::PageUp => Command::PreviousGroup,
        Key::Home => Command::FirstGroup,
        Key::End => Command::LastGroup,
        Key::Enter => Command::OpenFile,
        _ => Command::Nothing,
    }
}

/// What a key asks for in a state: the confirmation comes first, then the
/// text field, then the mark menu.
pub open spec fn command_of(v: AppView, key: Key, ctrl: bool) -> Command {
    if v.pending is Some {
        confirm_command(key)
    } else if v.input is Some {
        input_command(key, ctrl)
    } else if v.show_mark_menu {
        menu_command(key)
    } else {
        main_command(v.view_mode, key)
    }
}

/// Is the key one whose own message replaces the one that is shown?
pub open spec fn keeps_status(key: Key) -> bool {
    match key {
        Key::Char(c) => c == 'a' || c == 'A' || c == 'o' || c == 'O' || c == 'd' || c == 'D' || c == 'c' || c
            == 'C' || c == 'z' || c == 't' || c == 'e' || c == 'x' || c == 'N' || c == 'v',
        _ => false,
    }
}

fn on_confirm_key(key: Key) -> (r: Command)
    ensures
        r == confirm_command(key),
{
    match key {
        Key::Char(c) => if c == 'y' || c == 'Y' {
            Command::ConfirmDelete
        } else if c == 'n' || c == 'N' || c == 'q' {
            Command::CancelDelete
        } else {
            Command::Nothing
        },
        Key::Enter => Command::ConfirmDelete,
        Key::Esc => Command::CancelDelete,
        _ => Command::Nothing,
    }
}

fn on_input_key(key: Key, ctrl: bool) -> (r: Command)
    ensures
        r == input_command(key, ctrl),
{
    match key {
        Key::Esc => Command::CancelInput,
        Key::Enter => Command::CommitInput,
        Key::Backspace => Command::PopInput,
        Key::Char(c) => if ctrl {
            Command::Nothing
        } else {
            Command::PushInput(c)
        },
        _ => Command::Nothing,
    }
}

fn on_menu_key(key: Key) -> (r: Command)
    ensures
        r == menu_command(key),
{
    match key {
        Key::Esc => Command::CloseMenu,
        Key::Char(c) => {
            if c == 'm' || c == 'q' {
                return Command::CloseMenu;
            }
            match SelectMode::from_shortcut(c) {
                Some(mode) => {
                    let scope = if 'A' <= c && c <= 'Z' {
                        Scope::AllGroups
                    } else {
                        Scope::CurrentGroup
                    };
                    Command::MarkFromMenu(mode, scope)
                },
                None => Command::Nothing,
            }
        },
        _ => Command::Nothing,
    }
}

fn on_char(c: char) -> (r: Command)
    ensures
        r == char_command(c),
{
    if c == 'q' {
        Command::Quit
    } else if c == '?' {
        Command::ToggleHelp
    } else if c == 'j' {
        Command::NextFile
    } else if c == 'k' {
        Command::PreviousFile
    } else if c == 'n' {
        Command::NextGroup
    } else if c == 'p' {
        Command::PreviousGroup
    } else if c == 'g' {
        Command::FirstGroup
    } else if c == 'G' {
        Command::LastGroup
    } else if c == ' ' {
        Command::ToggleMark
    } else if c == 'a' {
        Command::Mark(SelectMode::Suggested, Scope::CurrentGroup)
    } else if c == 'A' {
        Command::Mark(SelectMode::Suggested, Scope::AllGroups)
    } else if c == 'o' {
        Command::Mark(SelectMode::AllButKeeper, Scope::CurrentGroup)
    } else if c == 'O' {
        Command::Mark(SelectMode::AllButKeeper, Scope::AllGroups)
    } else if c == 'm' {
        Command::OpenMenu
    } else if c == 'c' {
        Command::ClearMarks(Scope::CurrentGroup)
    } else if c == 'C' {
        Command::ClearMarks(Scope::AllGroups)
    } else if c == 'd' {
        Command::RequestDelete(Scope::CurrentGroup)
    } else if c == 'D' {
        Command::RequestDelete(Scope::AllGroups)
    } else if c == 'r' {
        Command::StartRename
    } else if c == 'N' {
        Command::RenameKeeper
    } else if c == 'e' {
        Command::OpenFile
    } else if c == '/' {
        Command::StartFilter
    } else if c == 'z' {
        Command::CycleSize
    } else if c == 't' {
        Command::CycleKind
    } else if c == 'x' {
        Command::ClearFilter
    } else if c == 'v' {
        Command::TogglePreview
    } else {
        Command::Nothing
    }
}

fn on_main_key(mode: ViewMode, key: Key) -> (r: Command)
    ensures
        r == main_command(mode, key),
{
    match key {
        Key::Char(c) => on_char(c),
        Key::Tab => Command::CycleView,
        Key::Esc => if mode != ViewMode::Duplicates {
            Command::BackToDuplicates
        } else {
            Command::Nothing
        },
        Key::Down => Command::NextFile,
        Key::Up => Command::PreviousFile,
        Key::Right | Key::PageDown => Command::NextGroup,
        Key::Left | Key::PageUp => Command::PreviousGroup,
        Key::Home => Command::FirstGroup,
        Key::End => Command::LastGroup,
        Key::Enter => Command::OpenFile,
        _ => Command::Nothing,
    }
}

/// What a key asks for in the app's present state.
pub fn key_command(app: &App, key: Key, ctrl: bool) -> (r: Command)
    ensures
        r == command_of(app@, key, ctrl),
{
    if app.pending_confirm.is_some() {
        on_confirm_key(key)
    } else if app.input.is_some() {
        on_input_key(key, ctrl)
    } else if app.show_mark_menu {
        on_menu_key(key)
    } else {
        on_main_key(app.view_mode, key)
    }
}

fn key_keeps_status(key: Key) -> (r: bool)
    ensures
        r == keeps_status(key),
{
    match key {
        Key::Char(c) => c == 'a' || c == 'A' || c == 'o' || c == 'O' || c == 'd' || c == 'D' || c == 'c' || c
            == 'C' || c == 'z' || c == 't' || c == 'e' || c == 'x' || c == 'N' || c == 'v',
        _ => false,
    }
}

/// What is left to be done outside after a key.
pub enum Effect {
    Nothing,
    Quit,
    /// Carry out this plan and hand its report to `App::confirm_delete`.
    Delete(DeletionPlan),
    /// Rename the file at this path to this name, by `App::rename`.
    Rename(String, String),
    /// Give the keeper its canonical name, by
    /// `App::rename_keeper_to_canonical`.
    RenameKeeper,
    /// Open the file at this path.
    Open(String),
}

/// The state once a command was carried out.
pub open spec fn carried_out(v: AppView, cmd: Command, after: AppView) -> bool {
    match cmd {
        Command::Nothing | Command::Quit | Command::RenameKeeper | Command::OpenFile => after == v,
        Command::ConfirmDelete => after == AppView { pending: None, ..v },
        Command::CancelDelete => after == AppView { pending: None, ..v }.say("Deletion cancelled"@),
        Command::CancelInput => after == AppView { input: None, ..v },
        Command::CommitInput => after == match v.input {
            Some(InputView::Filter(t)) => AppView { input: None, ..v }.filtered(
                FilterView { path: t, ..v.filter },
            ),
            _ => AppView { input: None, ..v },
        },
        Command::PopInput => after == AppView {
            input: match v.input {
                Some(InputView::Filter(t)) => Some(InputView::Filter(crate::app::shortened(t))),
                Some(InputView::Rename { path, text }) => Some(
                    InputView::Rename { path, text: crate::app::shortened(text) },
                ),
                None => None,
            },
            ..v
        },
        Command::PushInput(c) => after == AppView {
            input: match v.input {
                Some(InputView::Filter(t)) => Some(InputView::Filter(t.push(c))),
                Some(InputView::Rename { path, text }) => Some(
                    InputView::Rename { path, text: text.push(c) },
                ),
                None => None,
            },
            ..v
        },
        Command::CloseMenu => after == AppView { show_mark_menu: false, ..v },
        Command::MarkFromMenu(mode, scope) => after == AppView { show_mark_menu: false, ..v }.with_mode(
            mode,
            scope,
        ),
        Command::CycleView => after == AppView { view_mode: next_view(v.view_mode), ..v },
        Command::ToggleHelp => after == AppView {
            view_mode: if v.view_mode == ViewMode::Help {
                ViewMode::Duplicates
            } else {
                ViewMode::Help
            },
            ..v
        },
        Command::BackToDuplicates => after == AppView { view_mode: ViewMode::Duplicates, ..v },
        Command::NextFile => after == if v.current() is Some && v.selected_file_index + 1 < (
        v.current()->0).files.len() {
            AppView { selected_file_index: (v.selected_file_index + 1) as usize, ..v }
        } else {
            v
        },
        Command::PreviousFile => after == AppView {
            selected_file_index: if v.selected_file_index == 0 {
                0
            } else {
                (v.selected_file_index - 1) as usize
            },
            ..v
        },
        Command::NextGroup => after == if v.current_group_index + 1 < v.visible.len() {
            AppView {
                current_group_index: (v.current_group_index + 1) as usize,
                selected_file_index: 0,
                ..v
            }
        } else {
            v
        },
        Command::PreviousGroup => after == if v.current_group_index > 0 {
            AppView {
                current_group_index: (v.current_group_index - 1) as usize,
                selected_file_index: 0,
                ..v
            }
        } else {
            v
        },
        Command::FirstGroup => after == AppView { current_group_index: 0, selected_file_index: 0, ..v },
        Command::LastGroup => after == AppView {
            current_group_index: if v.visible.len() == 0 {
                0
            } else {
                (v.visible.len() - 1) as usize
            },
            selected_file_index: 0,
            ..v
        },
        Command::ToggleMark => after == match v.selected() {
            Some(f) => AppView {
                marked: if v.marked.contains(f.key()) {
                    v.marked.remove(f.key())
                } else {
                    v.marked.insert(f.key())
                },
                ..v
            },
            None => v,
        },
        Command::Mark(mode, scope) => after == v.with_mode(mode, scope),
        Command::OpenMenu => after == AppView { show_mark_menu: true, ..v },
        Command::ClearMarks(scope) => after == match scope {
            Scope::CurrentGroup => AppView {
                marked: match v.current() {
                    Some(g) => cleared(v.marked, g.files),
                    None => v.marked,
                },
                ..v
            }.say("Cleared marks in this group"@),
            Scope::AllGroups => AppView { marked: Set::empty(), ..v }.say("Cleared all marks"@),
        },
        Command::RequestDelete(scope) => v.asked_to_delete(scope, after),
        Command::StartRename => after == match v.selected() {
            Some(f) => AppView {
                input: Some(
                    InputView::Rename { path: f.path, text: crate::paths::name_or_empty(f.path) },
                ),
                ..v
            },
            None => v,
        },
        Command::StartFilter => after == AppView { input: Some(InputView::Filter(v.filter.path)), ..v },
        Command::CycleSize => after == v.filtered(
            FilterView { size: v.filter.size.successor(), ..v.filter },
        ),
        Command::CycleKind => after == v.filtered(
            FilterView { kind: v.filter.kind.successor(), ..v.filter },
        ),
        Command::ClearFilter => after == (AppView {
            filter: FilterView {
                path: ""@,
                size: crate::filters::SizeBucket::All,
                kind: crate::filters::FileKind::All,
            },
            ..v
        }).refreshed().say("Filter cleared"@),
        Command::TogglePreview => after == (AppView { show_preview: !v.show_preview, ..v }).say(
            if v.show_preview {
                "Preview pane hidden"@
            } else {
                "Preview pane shown"@
            },
        ),
    }
}

/// What is left to be done outside after a command.
pub open spec fn leaves(v: AppView, cmd: Command, e: Effect) -> bool {
    match cmd {
        Command::Quit => e is Quit,
        Command::ConfirmDelete => match v.pending {
            Some(p) => e matches Effect::Delete(plan) && planned_views(plan.items@) == p.0,
            None => e is Nothing,
        },
        Command::CommitInput => match v.input {
            Some(InputView::Rename { path, text }) => e matches Effect::Rename(p, t) && p@ == path && t@ == text,
            _ => e is Nothing,
        },
        Command::RenameKeeper => e is RenameKeeper,
        Command::OpenFile => match v.selected() {
            Some(f) => e matches Effect::Open(p) && p@ == f.path,
            None => e is Nothing,
        },
        _ => e is Nothing,
    }
}

/// Does the key go to the list itself, with no dialog, field or menu open?
pub open spec fn is_bare(v: AppView) -> bool {
    v.pending is None && v.input is None && !v.show_mark_menu
}

/// The state in which a command is carried out: a key that says nothing of
/// its own clears the message that is shown.
pub open spec fn before_command(v: AppView, key: Key) -> AppView {
    if is_bare(v) && !keeps_status(key) {
        AppView { status: None, ..v }
    } else {
        v
    }
}

fn carry_out(app: &mut App, cmd: Command) -> (r: Effect)
    requires
        old(app).wf(),
    ensures
        final(app).wf(),
        carried_out(old(app)@, cmd, final(app)@),
        leaves(old(app)@, cmd, r),
{
    match cmd {
        Command::Nothing => {},
        Command::Quit => {
            return Effect::Quit;
        },
        Command::RenameKeeper => {
            return Effect::RenameKeeper;
        },
        Command::OpenFile => {
            if let Some(f) = app.selected_file() {
                return Effect::Open(f.path.clone());
            }
        },
        Command::ConfirmDelete => {
            if let Some(plan) = app.begin_delete() {
                return Effect::Delete(plan);
            }
        },
        Command::CancelDelete => {
            app.cancel_delete();
        },
        Command::CancelInput => {
            app.cancel_input();
        },
        Command::CommitInput => {
            if let Some((path, name)) = app.commit_input() {
                return Effect::Rename(path, name);
            }
        },
        Command::PopInput => {
            app.input_pop();
        },
        Command::PushInput(c) => {
            app.input_push(c);
        },
        Command::CloseMenu => {
            app.show_mark_menu = false;
        },
        Command::MarkFromMenu(mode, scope) => {
            app.show_mark_menu = false;
            app.apply_select_mode(mode, scope);
        },
        Command::CycleView => {
            app.cycle_view();
        },
        Command::ToggleHelp => {
            app.view_mode = if app.view_mode == ViewMode::Help {
                ViewMode::Duplicates
            } else {
                ViewMode::Help
            };
        },
        Command::BackToDuplicates => {
            app.view_mode = ViewMode::Duplicates;
        },
        Command::NextFile => {
            app.select_next_file();
        },
        Command::PreviousFile => {
            app.select_previous_file();
        },
        Command::NextGroup => {
            app.next_group();
        },
        Command::PreviousGroup => {
            app.previous_group();
        },
        Command::FirstGroup => {
            app.first_group();
        },
        Command::LastGroup => {
            app.last_group();
        },
        Command::ToggleMark => {
            app.toggle_mark();
        },
        Command::Mark(mode, scope) => {
            app.apply_select_mode(mode, scope);
        },
        Command::OpenMenu => {
            app.show_mark_menu = true;
        },
        Command::ClearMarks(scope) => {
            app.clear_marks(scope);
        },
        Command::RequestDelete(scope) => {
            app.request_delete(scope);
        },
        Command::StartRename => {
            app.start_rename();
        },
        Command::StartFilter => {
            app.start_filter_input();
        },
        Command::CycleSize => {
            app.cycle_size_filter();
        },
        Command::CycleKind => {
            app.cycle_kind_filter();
        },
        Command::ClearFilter => {
            app.clear_filter();
        },
        Command::TogglePreview => {
            app.toggle_preview();
        },
    }
    Effect::Nothing
}

/// One key press: what it does to the state, and what is left to be done
/// outside.
pub fn handle_key(app: &mut App, key: Key, ctrl: bool) -> (r: Effect)
    requires
        old(app).wf(),
    ensures
        final(app).wf(),
        carried_out(
            before_command(old(app)@, key),
            command_of(old(app)@, key, ctrl),
            final(app)@,
        ),
        leaves(before_command(old(app)@, key), command_of(old(app)@, key, ctrl), r),
{
    let cmd = key_command(app, key, ctrl);
    if app.pending_confirm.is_none() && app.input.is_none() && !app.show_mark_menu && !key_keeps_status(key) {
        app.clear_status();
    }
    carry_out(app, cmd)
}

/// Nothing is deleted by a key alone: only a key that confirms, while a plan
/// waits to be confirmed, asks for a deletion, and of exactly that plan.
pub proof fn deletion_needs_confirmation(v: AppView, key: Key, ctrl: bool, e: Effect)
    requires
        leaves(before_command(v, key), command_of(v, key, ctrl), e),
        e is Delete,
    ensures
        v.pending is Some,
        key == Key::Enter || key == Key::Char('y') || key == Key::Char('Y'),
        e matches Effect::Delete(plan) && planned_views(plan.items@) == (v.pending->0).0,
{
    if v.pending is None {
        if v.input is Some {
            assert(!(input_command(key, ctrl) is ConfirmDelete));
        } else if v.show_mark_menu {
            assert(!(menu_command(key) is ConfirmDelete));
        } else {
            assert(!(main_command(v.view_mode, key) is ConfirmDelete));
        }
    }
}

/// A text that is too long keeps its beginning, a third of the room, and its
/// end, with an ellipsis between them.
pub proof fn truncation_keeps_both_ends(s: Seq<char>, max: int)
    requires
        8 <= max < s.len(),
    ensures
        ({
            let head = (max - 1) / 3;
            let t = middle_cut(s, max);
            &&& t.len() == max
            &&& t.take(head) == s.take(head)
            &&& t[head] == '…'
            &&& t.skip(head + 1) == s.skip(s.len() - (max - 1 - head))
            &&& s.take(head).is_prefix_of(t)
        }),
        max < 8 ==> middle_cut(s, max) == s,
{
    let head = (max - 1) / 3;
    let t = middle_cut(s, max);
    assert(t.take(head) == s.take(head));
    assert(t.skip(head + 1) == s.skip(s.len() - (max - 1 - head)));
    assert(t.subrange(0, head) == s.take(head));
}

/// What the keys do while nothing else is open, as the help says.
pub proof fn keys_do_what_the_help_says(v: AppView, ctrl: bool)
    requires
        v.pending is None,
        v.input is None,
        !v.show_mark_menu,
    ensures
        command_of(v, Key::Char('q'), ctrl) == Command::Quit,
        command_of(v, Key::Char('?'), ctrl) == Command::ToggleHelp,
        command_of(v, Key::Char('j'), ctrl) == Command::NextFile,
        command_of(v, Key::Down, ctrl) == Command::NextFile,
        command_of(v, Key::Char('k'), ctrl) == Command::PreviousFile,
        command_of(v, Key::Up, ctrl) == Command::PreviousFile,
        command_of(v, Key::Char('n'), ctrl) == Command::NextGroup,
        command_of(v, Key::Right, ctrl) == Command::NextGroup,
        command_of(v, Key::PageDown, ctrl) == Command::NextGroup,
        command_of(v, Key::Char('p'), ctrl) == Command::PreviousGroup,
        command_of(v, Key::Left, ctrl) == Command::PreviousGroup,
        command_of(v, Key::PageUp, ctrl) == Command::PreviousGroup,
        command_of(v, Key::Char('g'), ctrl) == Command::FirstGroup,
        command_of(v, Key::Home, ctrl) == Command::FirstGroup,
        command_of(v, Key::Char('G'), ctrl) == Command::LastGroup,
        command_of(v, Key::End, ctrl) == Command::LastGroup,
        command_of(v, Key::Char(' '), ctrl) == Command::ToggleMark,
        command_of(v, Key::Char('a'), ctrl) == Command::Mark(SelectMode::Suggested, Scope::CurrentGroup),
        command_of(v, Key::Char('A'), ctrl) == Command::Mark(SelectMode::Suggested, Scope::AllGroups),
        command_of(v, Key::Char('o'), ctrl) == Command::Mark(SelectMode::AllButKeeper, Scope::CurrentGroup),
        command_of(v, Key::Char('O'), ctrl) == Command::Mark(SelectMode::AllButKeeper, Scope::AllGroups),
        command_of(v, Key::Char('m'), ctrl) == Command::OpenMenu,
        command_of(v, Key::Char('c'), ctrl) == Command::ClearMarks(Scope::CurrentGroup),
        command_of(v, Key::Char('C'), ctrl) == Command::ClearMarks(Scope::AllGroups),
        command_of(v, Key::Char('d'), ctrl) == Command::RequestDelete(Scope::CurrentGroup),
        command_of(v, Key::Char('D'), ctrl) == Command::RequestDelete(Scope::AllGroups),
        command_of(v, Key::Char('r'), ctrl) == Command::StartRename,
        command_of(v, Key::Char('N'), ctrl) == Command::RenameKeeper,
        command_of(v, Key::Char('e'), ctrl) == Command::OpenFile,
        command_of(v, Key::Enter, ctrl) == Command::OpenFile,
        command_of(v, Key::Char('/'), ctrl) == Command::StartFilter,
        command_of(v, Key::Char('z'), ctrl) == Command::CycleSize,
        command_of(v, Key::Char('t'), ctrl) == Command::CycleKind,
        command_of(v, Key::Char('x'), ctrl) == Command::ClearFilter,
        command_of(v, Key::Char('v'), ctrl) == Command::TogglePreview,
        command_of(v, Key::Tab, ctrl) == Command::CycleView,
        v.view_mode == ViewMode::Duplicates ==> command_of(v, Key::Esc, ctrl) == Command::Nothing,
        v.view_mode != ViewMode::Duplicates ==> command_of(v, Key::Esc, ctrl) == Command::BackToDuplicates,
        command_of(v, Key::Backspace, ctrl) == Command::Nothing,
        command_of(v, Key::Other, ctrl) == Command::Nothing,
{
}

/// While a deletion waits to be confirmed, `y` and Enter confirm it, `n`, `q`
/// and Esc call it off, and every other key does nothing.
pub proof fn deletions_are_confirmed_or_called_off(v: AppView, key: Key, ctrl: bool)
    requires
        v.pending is Some,
    ensures
        command_of(v, key, ctrl) == Command::ConfirmDelete <==> key == Key::Enter || key == Key::Char('y') || key
            == Key::Char('Y'),
        command_of(v, key, ctrl) == Command::CancelDelete <==> key == Key::Esc || key == Key::Char('n') || key
            == Key::Char('N') || key == Key::Char('q'),
        command_of(v, key, ctrl) == Command::ConfirmDelete || command_of(v, key, ctrl) == Command::CancelDelete
            || command_of(v, key, ctrl) == Command::Nothing,
{
}

/// While a text is typed, a character is added to it, Backspace takes one
/// away, Enter takes the text and Esc leaves it.
pub proof fn typed_keys_edit_the_text(v: AppView, c: char)
    requires
        v.pending is None,
        v.input is Some,
    ensures
        command_of(v, Key::Char(c), false) == Command::PushInput(c),
        command_of(v, Key::Char(c), true) == Command::Nothing,
        command_of(v, Key::Backspace, false) == Command::PopInput,
        command_of(v, Key::Enter, false) == Command::CommitInput,
        command_of(v, Key::Esc, false) == Command::CancelInput,
        command_of(v, Key::Tab, false) == Command::Nothing,
        command_of(v, Key::Up, false) == Command::Nothing,
        command_of(v, Key::Down, false) == Command::Nothing,
{
}

/// In the mark menu each rule has its letter: the small one marks in this
/// group, the capital in all.
pub proof fn menu_letters_choose_the_rule(v: AppView, mode: SelectMode, ctrl: bool)
    requires
        v.pending is None,
        v.input is None,
        v.show_mark_menu,
    ensures
        command_of(v, Key::Char('s'), ctrl) == Command::MarkFromMenu(SelectMode::Suggested, Scope::CurrentGroup),
        command_of(v, Key::Char('S'), ctrl) == Command::MarkFromMenu(SelectMode::Suggested, Scope::AllGroups),
        command_of(v, Key::Char('k'), ctrl) == Command::MarkFromMenu(
            SelectMode::AllButKeeper,
            Scope::CurrentGroup,
        ),
        command_of(v, Key::Char('K'), ctrl) == Command::MarkFromMenu(SelectMode::AllButKeeper, Scope::AllGroups),
        command_of(v, Key::Char('o'), ctrl) == Command::MarkFromMenu(
            SelectMode::AllButOldest,
            Scope::CurrentGroup,
        ),
        command_of(v, Key::Char('O'), ctrl) == Command::MarkFromMenu(SelectMode::AllButOldest, Scope::AllGroups),
        command_of(v, Key::Char('n'), ctrl) == Command::MarkFromMenu(
            SelectMode::AllButNewest,
            Scope::CurrentGroup,
        ),
        command_of(v, Key::Char('N'), ctrl) == Command::MarkFromMenu(SelectMode::AllButNewest, Scope::AllGroups),
        command_of(v, Key::Char('h'), ctrl) == Command::MarkFromMenu(
            SelectMode::AllButShortestPath,
            Scope::CurrentGroup,
        ),
        command_of(v, Key::Char('H'), ctrl) == Command::MarkFromMenu(
            SelectMode::AllButShortestPath,
            Scope::AllGroups,
        ),
        command_of(v, Key::Char('l'), ctrl) == Command::MarkFromMenu(
            SelectMode::AllButLongestPath,
            Scope::CurrentGroup,
        ),
        command_of(v, Key::Char('L'), ctrl) == Command::MarkFromMenu(
            SelectMode::AllButLongestPath,
            Scope::AllGroups,
        ),
        command_of(v, Key::Esc, ctrl) == Command::CloseMenu,
        command_of(v, Key::Char('m'), ctrl) == Command::CloseMenu,
        command_of(v, Key::Char('q'), ctrl) == Command::CloseMenu,
        command_of(v, Key::Enter, ctrl) == Command::Nothing,
{
}

/// Moving stays within the list and goes one step: to the next group and its
/// first file, or to the next file; a step back undoes a step on.
pub proof fn moves_go_one_step(v: AppView, a: AppView, b: AppView)
    requires
        v.wf(),
        v.selected_file_index < usize::MAX,
    ensures
        v.current_group_index + 1 < v.visible.len() && carried_out(v, Command::NextGroup, a) ==> {
            &&& a.current_group_index == v.current_group_index + 1
            &&& a.selected_file_index == 0
            &&& carried_out(a, Command::PreviousGroup, b) ==> b.current_group_index == v.current_group_index
        },
        v.current_group_index + 1 >= v.visible.len() && carried_out(v, Command::NextGroup, a) ==> a == v,
        v.current_group_index == 0 && carried_out(v, Command::PreviousGroup, a) ==> a == v,
        carried_out(v, Command::FirstGroup, a) ==> a.current_group_index == 0 && a.selected_file_index == 0,
        v.visible.len() > 0 && carried_out(v, Command::LastGroup, a) ==> a.current_group_index
            == v.visible.len() - 1 && a.selected_file_index == 0,
        v.current() is Some && v.selected_file_index + 1 < (v.current()->0).files.len() && carried_out(
            v,
            Command::NextFile,
            a,
        ) ==> {
            &&& a.selected_file_index == v.selected_file_index + 1
            &&& a.current_group_index == v.current_group_index
            &&& carried_out(a, Command::PreviousFile, b) ==> b.selected_file_index == v.selected_file_index
        },
        v.current() is Some && v.selected_file_index + 1 == (v.current()->0).files.len() && carried_out(
            v,
            Command::NextFile,
            a,
        ) ==> a == v,
        v.selected_file_index == 0 && carried_out(v, Command::PreviousFile, a) ==> a.selected_file_index == 0,
{
    crate::filters::filtering_keeps_order(v.filter, v.groups, v.groups.len());
}

/// Marking the selected file twice leaves the marks as they were, and once
/// changes the mark of that file and no other.
pub proof fn marking_twice_changes_nothing(v: AppView, a: AppView, b: AppView, f: FileView, p: Seq<char>)
    requires
        v.selected() == Some(f),
        carried_out(v, Command::ToggleMark, a),
        carried_out(a, Command::ToggleMark, b),
    ensures
        a.marked.contains(path_key(f.path)) <==> !v.marked.contains(path_key(f.path)),
        p != path_key(f.path) ==> (a.marked.contains(p) <==> v.marked.contains(p)),
        b.marked == v.marked,
{
    assert(a.selected() == Some(f));
}

/// A message stays until the next key, but for the keys whose own message
/// takes its place.
pub proof fn messages_stay_until_the_next_key(v: AppView, key: Key)
    requires
        v.pending is None,
        v.input is None,
        !v.show_mark_menu,
    ensures
        key == Key::Char('j') || key == Key::Char('k') || key == Key::Char('n') || key == Key::Char('p') || key
            == Key::Char(' ') || key == Key::Tab || key == Key::Up || key == Key::Down || key == Key::Left || key
            == Key::Right || key == Key::Esc || key == Key::Enter ==> before_command(v, key).status is None,
        before_command(v, key).groups == v.groups,
        before_command(v, key).marked == v.marked,
        key == Key::Char('a') || key == Key::Char('A') || key == Key::Char('o') || key == Key::Char('O') || key
            == Key::Char('d') || key == Key::Char('D') || key == Key::Char('c') || key == Key::Char('C') || key
            == Key::Char('z') || key == Key::Char('t') || key == Key::Char('e') || key == Key::Char('x') || key
            == Key::Char('N') || key == Key::Char('v') ==> before_command(v, key) == v,
{
}

} // verus!
