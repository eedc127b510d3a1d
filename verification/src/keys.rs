//! What the keys do.
use vstd::prelude::*;
use vstd::string::*;

use crate::app;
use crate::app::App;
use crate::app::Column;
use crate::app::LoadOrder;
use crate::text::chars_of;
use crate::text::string_of;

verus! {

/// A key.
#[derive(Clone, Copy, Debug, PartialEq, Eq, Structural)]
pub enum KeyCode {
    Esc,
    Enter,
    Down,
    Up,
    Tab,
    BackTab,
    Backspace,
    Char(char),
    Other,
}

/// What is held down with a key.
#[derive(Clone, Copy, Debug, PartialEq, Eq, Structural)]
pub enum KeyModifiers {
    Bare,
    Shift,
    Control,
    Alt,
    Other,
}

/// What a key asks for.
#[derive(Clone, Copy, Debug, PartialEq, Eq, Structural)]
pub enum Command {
    Quit,
    Accept,
    Drag,
    Next,
    Previous,
    ToggleEntries,
    ToggleScope,
    ShowRanked,
    ShowRecent,
    Copy,
    ClearQuery,
    DropWord,
    DropChar,
    Type(char),
    Ignore,
}

/// What is to be done with a path when the picker is left.
pub enum ExitAction {
    Open(String),
    Drag(String),
    Choose(String),
}

/// What is to be done for a key while the picker stays.
pub enum KeyEffect {
    Nothing,
    CopyPath(String),
    Load(LoadOrder),
}

/// What a key asks for.
pub open spec fn command_for(code: KeyCode, modifiers: KeyModifiers) -> Command {
    match code {
        KeyCode::Esc => Command::Quit,
        KeyCode::Enter => Command::Accept,
        KeyCode::Down => Command::Next,
        KeyCode::Tab => if modifiers == KeyModifiers::Bare {
            Command::Next
        } else {
            Command::Ignore
        },
        KeyCode::Up | KeyCode::BackTab => Command::Previous,
        KeyCode::Backspace => match modifiers {
            KeyModifiers::Bare => Command::DropChar,
            KeyModifiers::Alt => Command::DropWord,
            _ => Command::Ignore,
        },
        KeyCode::Char(c) => match modifiers {
            KeyModifiers::Bare | KeyModifiers::Shift => Command::Type(c),
            KeyModifiers::Control => control_command(c),
            _ => Command::Ignore,
        },
        KeyCode::Other => Command::Ignore,
    }
}

/// What a letter asks for together with the control key.
pub open spec fn control_command(c: char) -> Command {
    if c == 'd' {
        Command::Drag
    } else if c == 'n' || c == 'j' {
        Command::Next
    } else if c == 'k' {
        Command::Previous
    } else if c == 'p' {
        Command::ToggleEntries
    } else if c == 'h' {
        Command::ShowRanked
    } else if c == 'l' {
        Command::ShowRecent
    } else if c == 'y' {
        Command::Copy
    } else if c == 'z' {
        Command::ToggleScope
    } else if c == 'u' {
        Command::ClearQuery
    } else if c == 'w' {
        Command::DropWord
    } else {
        Command::Ignore
    }
}

/// What a key asks for.
pub fn key_command(code: KeyCode, modifiers: KeyModifiers) -> (r: Command)
    ensures
        r == command_for(code, modifiers),
{
    match (code, modifiers) {
        (KeyCode::Esc, _) => Command::Quit,
        (KeyCode::Enter, _) => Command::Accept,
        (KeyCode::Char('d'), KeyModifiers::Control) => Command::Drag,
        (KeyCode::Down, _) | (KeyCode::Tab, KeyModifiers::Bare) => Command::Next,
        (KeyCode::Up, _) | (KeyCode::BackTab, _) => Command::Previous,
        (KeyCode::Char('n'), KeyModifiers::Control) | (
            KeyCode::Char('j'),
            KeyModifiers::Control,
        ) => Command::Next,
        (KeyCode::Char('p'), KeyModifiers::Control) => Command::ToggleEntries,
        (KeyCode::Char('k'), KeyModifiers::Control) => Command::Previous,
        (KeyCode::Char('h'), KeyModifiers::Control) => Command::ShowRanked,
        (KeyCode::Char('l'), KeyModifiers::Control) => Command::ShowRecent,
        (KeyCode::Char('y'), KeyModifiers::Control) => Command::Copy,
        (KeyCode::Char('z'), KeyModifiers::Control) => Command::ToggleScope,
        (KeyCode::Char('u'), KeyModifiers::Control) => Command::ClearQuery,
        (KeyCode::Char('w'), KeyModifiers::Control) | (
            KeyCode::Backspace,
            KeyModifiers::Alt,
        ) => Command::DropWord,
        (KeyCode::Backspace, KeyModifiers::Bare) => Command::DropChar,
        (KeyCode::Char(c), KeyModifiers::Bare | KeyModifiers::Shift) => Command::Type(c),
        _ => Command::Ignore,
    }
}

/// A query without the blanks at its end.
pub open spec fn without_blanks(query: Seq<char>) -> Seq<char>
    decreases query.len(),
{
    if query.len() > 0 && query.last() == ' ' {
        without_blanks(query.drop_last())
    } else {
        query
    }
}

/// A query without what stands at its end behind the last blank.
pub open spec fn without_tail(query: Seq<char>) -> Seq<char>
    decreases query.len(),
{
    if query.len() > 0 && query.last() != ' ' {
        without_tail(query.drop_last())
    } else {
        query
    }
}

/// Drops the last word of a query, with the blanks that follow it.
fn drop_word(query: &mut String)
    ensures
        final(query)@ == without_tail(without_blanks(old(query)@)),
{
    let mut chars = chars_of(query.as_str());
    while chars.len() > 0 && chars[chars.len() - 1] == ' '
        invariant
            without_blanks(chars@) == without_blanks(old(query)@),
        decreases chars.len(),
    {
        let _ = chars.pop();
    }
    let ghost kept = chars@;
    while chars.len() > 0 && chars[chars.len() - 1] != ' '
        invariant
            without_tail(chars@) == without_tail(kept),
        decreases chars.len(),
    {
        let _ = chars.pop();
    }
    *query = string_of(&chars);
}

/// Moves the selection down, unless it is at the end.
fn select_next(app: &mut App)
    ensures
        *final(app) == (App { selected: next_row(*old(app)), ..*old(app) }),
{
    let count: usize = app.active_matches().len();
    if count > 0 && app.selected < count - 1 {
        app.selected = app.selected + 1;
    }
}

/// The selection further down.
pub open spec fn next_row(app: App) -> usize {
    if app.selected + 1 < app.shown_matches().len() {
        (app.selected + 1) as usize
    } else {
        app.selected
    }
}

/// The selection further up.
pub open spec fn previous_row(app: App) -> usize {
    if app.selected > 0 {
        (app.selected - 1) as usize
    } else {
        0
    }
}

/// The state once a column has been made the active one.
pub open spec fn with_column(app: App, column: Column) -> App {
    if app.active_column == column {
        app
    } else {
        let turned = App { active_column: column, ..app };
        App { selected: App::clamped(app.selected, turned.shown_matches().len()), ..turned }
    }
}

/// Makes a column the active one.
fn show_column(app: &mut App, column: Column)
    ensures
        *final(app) == with_column(*old(app), column),
{
    if app.active_column != column {
        app.active_column = column;
        let count: usize = app.active_matches().len();
        if app.selected >= count {
            app.selected = if count > 0 {
                count - 1
            } else {
                0
            };
        }
    }
}

/// Whether a state is another one with this query and the first row selected.
pub open spec fn has_query(after: App, before: App, query: Seq<char>) -> bool {
    &&& after.query@ == query
    &&& after == App { query: after.query, selected: 0, ..before }
}

/// What is to be done with the selected path on leaving. If the path of a file to
/// write the choice to was given, that comes first.
pub open spec fn accepted(app: App, for_selection: bool, path: Seq<char>, action: ExitAction) -> bool {
    if for_selection {
        action matches ExitAction::Choose(p) && p@ == path
    } else if app.drag_mode {
        action matches ExitAction::Drag(p) && p@ == path
    } else {
        action matches ExitAction::Open(p) && p@ == path
    }
}

/// What a command does to the state.
pub open spec fn carried_out(command: Command, before: App, after: App) -> bool {
    match command {
        Command::Quit | Command::Accept | Command::Drag | Command::Copy | Command::Ignore => after
            == before,
        Command::Next => after == (App { selected: next_row(before), ..before }),
        Command::Previous => after == (App { selected: previous_row(before), ..before }),
        Command::ToggleEntries => app::entries_toggled(before, after),
        Command::ToggleScope => app::scope_toggled(before, after),
        Command::ShowRanked => after == with_column(before, Column::Ranked),
        Command::ShowRecent => after == with_column(before, Column::Recent),
        Command::ClearQuery => has_query(after, before, Seq::<char>::empty()),
        Command::DropWord => has_query(after, before, without_tail(without_blanks(before.query@))),
        Command::DropChar => has_query(
            after,
            before,
            if before.query@.len() > 0 {
                before.query@.drop_last()
            } else {
                before.query@
            },
        ),
        Command::Type(c) => has_query(after, before, before.query@.push(c)),
    }
}

/// Whether a command leaves the picker.
pub open spec fn leaves(command: Command) -> bool {
    command is Quit || command is Accept || command is Drag
}

/// Handles a key: whether the picker is to be left, and what is to be done besides.
/// If it is left, `chosen` may say what comes next.
pub fn handle_key_press(
    code: KeyCode,
    modifiers: KeyModifiers,
    app: &mut App,
    for_selection: bool,
    chosen: &mut Option<ExitAction>,
) -> (r: (bool, KeyEffect))
    requires
        old(app).wf(),
    ensures
        final(app).wf(),
        ({
            let command = command_for(code, modifiers);
            let path = old(app).chosen_path();
            &&& carried_out(command, *old(app), *final(app))
            &&& r.0 == leaves(command)
            &&& match command {
                Command::Accept if path is Some => *final(chosen) matches Some(action) && accepted(
                    *old(app),
                    for_selection,
                    path->0,
                    action,
                ),
                Command::Drag if path is Some => *final(chosen) matches Some(action) && (
                action matches ExitAction::Drag(p) && p@ == path->0),
                _ => *final(chosen) == *old(chosen),
            }
            &&& match command {
                Command::Copy if path is Some => r.1 matches KeyEffect::CopyPath(p) && p@
                    == path->0,
                Command::ToggleEntries => r.1 == KeyEffect::Load(final(app).order_for_mode()),
                Command::ToggleScope if app::loads_all(*final(app)) => r.1 == KeyEffect::Load(
                    app::all_order(),
                ),
                _ => r.1 is Nothing,
            }
        }),
        code == KeyCode::Esc ==> r.0 && *final(chosen) == *old(chosen),
        code == KeyCode::Enter && old(app).chosen_path() is Some ==> r.0 && *final(chosen) is Some,
        !r.0 ==> *final(chosen) == *old(chosen),
{
    match key_command(code, modifiers) {
        Command::Quit => (true, KeyEffect::Nothing),
        Command::Accept => {
            if let Some(path) = app.selected_file() {
                *chosen = Some(
                    if for_selection {
                        ExitAction::Choose(path)
                    } else if app.drag_mode {
                        ExitAction::Drag(path)
                    } else {
                        ExitAction::Open(path)
                    },
                );
            }
            (true, KeyEffect::Nothing)
        },
        Command::Drag => {
            if let Some(path) = app.selected_file() {
                *chosen = Some(ExitAction::Drag(path));
            }
            (true, KeyEffect::Nothing)
        },
        Command::Next => {
            select_next(app);
            (false, KeyEffect::Nothing)
        },
        Command::Previous => {
            if app.selected > 0 {
                app.selected = app.selected - 1;
            }
            (false, KeyEffect::Nothing)
        },
        Command::ToggleEntries => {
            let order = app.toggle_entry_mode();
            (false, KeyEffect::Load(order))
        },
        Command::ToggleScope => {
            match app.toggle_search_scope() {
                Some(order) => (false, KeyEffect::Load(order)),
                None => (false, KeyEffect::Nothing),
            }
        },
        Command::ShowRanked => {
            show_column(app, Column::Ranked);
            (false, KeyEffect::Nothing)
        },
        Command::ShowRecent => {
            show_column(app, Column::Recent);
            (false, KeyEffect::Nothing)
        },
        Command::Copy => match app.selected_file() {
            Some(path) => (false, KeyEffect::CopyPath(path)),
            None => (false, KeyEffect::Nothing),
        },
        Command::ClearQuery => {
            app.query = String::new();
            app.selected = 0;
            (false, KeyEffect::Nothing)
        },
        Command::DropWord => {
            drop_word(&mut app.query);
            app.selected = 0;
            (false, KeyEffect::Nothing)
        },
        Command::DropChar => {
            let _ = app.query.pop();
            app.selected = 0;
            (false, KeyEffect::Nothing)
        },
        Command::Type(c) => {
            app.query.push(c);
            app.selected = 0;
            (false, KeyEffect::Nothing)
        },
        Command::Ignore => (false, KeyEffect::Nothing),
    }
}

/// A selection that points to a match still does after any key.
pub proof fn lemma_selection_stays(code: KeyCode, modifiers: KeyModifiers, before: App, after: App)
    requires
        before.selected == 0 || before.selected < before.shown_matches().len(),
        carried_out(command_for(code, modifiers), before, after),
    ensures
        after.selected == 0 || after.selected < after.shown_matches().len(),
{
}

/// A character that is typed is dropped again by the backspace key.
pub proof fn lemma_typed_then_dropped(c: char, before: App, typed: App, after: App)
    requires
        carried_out(command_for(KeyCode::Char(c), KeyModifiers::Bare), before, typed),
        carried_out(command_for(KeyCode::Backspace, KeyModifiers::Bare), typed, after),
    ensures
        after.query@ == before.query@,
{
    assert(before.query@.push(c).drop_last() =~= before.query@);
}

} // verus!
