//! What keys and the outcomes of searches mean for the state of the picker.
use vstd::prelude::*;
use vstd::string::*;

use crate::app;
use crate::app::App;
use crate::app::Column;
use crate::app::PoolId;
use crate::entry::FileEntry;
use crate::incremental::SearchResult;
use crate::incremental::SearchScope;
use crate::keys;
use crate::keys::ExitAction;
use crate::keys::KeyCode;
use crate::keys::KeyModifiers;
use crate::pool;
use crate::pool::EntryPool;

verus! {

/// Whether a key, with what is held down with it, may lead from one state to another.
pub open spec fn leads_to(
    code: KeyCode,
    modifiers: KeyModifiers,
    before: App,
    after: App,
) -> bool {
    keys::carried_out(keys::command_for(code, modifiers), before, after)
}

/// Whether two states differ in the selected row at most.
pub open spec fn same_but_row(before: App, after: App) -> bool {
    after == App { selected: after.selected, ..before }
}

// ---------------------------------------------------------------------------
// The outcomes of searches
// ---------------------------------------------------------------------------

/// An outcome that belongs to another search than the latest, to another query or to
/// another scope changes nothing.
pub proof fn lemma_other_outcomes_are_dropped(before: App, result: SearchResult)
    requires
        result.id != before.latest_search_id || result.query@ != before.query@ || result.scope
            != before.scope(),
    ensures
        before.with_result(result) == before,
{
}

/// The outcome of the latest search is shown, in both columns, with its entries. The
/// selected row stays if there is still a match in it, and else it is the last one.
pub proof fn lemma_outcome_is_shown(before: App, result: SearchResult)
    requires
        result.id == before.latest_search_id,
        result.query@ == before.query@,
        result.scope == before.scope(),
    ensures
        ({
            let after = before.with_result(result);
            &&& after.matches == result.matches
            &&& after.matches_by_time == result.matches_by_time
            &&& after.matches_files == result.files
            &&& after.last_result_search_id == after.latest_search_id
            &&& before.selected < result.matches@.len() ==> after.selected == before.selected
            &&& before.selected >= result.matches@.len() > 0 ==> after.selected + 1
                == result.matches@.len()
            &&& result.matches@.len() == 0 ==> after.selected == 0
            &&& after.query == before.query
            &&& after.active_column == before.active_column
            &&& after.latest_search_id == before.latest_search_id
        }),
{
}

/// Outcomes leave alone what decides which of them is shown.
proof fn lemma_results_keep_request(before: App, results: Seq<SearchResult>)
    ensures
        before.with_results(results).latest_search_id == before.latest_search_id,
        before.with_results(results).query == before.query,
        before.with_results(results).scope() == before.scope(),
    decreases results.len(),
{
    if results.len() > 0 {
        lemma_results_keep_request(before, results.drop_last());
    }
}

/// Of several outcomes, the last one that belongs to the latest search is shown.
pub proof fn lemma_last_outcome_counts(before: App, results: Seq<SearchResult>, k: int)
    requires
        0 <= k < results.len(),
        before.accepts(results[k]),
        forall|i: int| k < i < results.len() ==> !before.accepts(#[trigger] results[i]),
    ensures
        before.with_results(results).matches == results[k].matches,
        before.with_results(results).matches_by_time == results[k].matches_by_time,
        before.with_results(results).matches_files == results[k].files,
    decreases results.len(),
{
    let init = results.drop_last();
    lemma_results_keep_request(before, init);
    if k == results.len() - 1 {
    } else {
        assert(init[k] == results[k]);
        assert(!before.accepts(results[results.len() - 1]));
        assert forall|i: int| k < i < init.len() implies !before.accepts(#[trigger] init[i]) by {
            assert(init[i] == results[i]);
        }
        lemma_last_outcome_counts(before, init, k);
    }
}

/// After a request, the outcome of that request is the one that is shown, and one of
/// an earlier request never is.
pub proof fn lemma_only_latest_request_counts(
    before: App,
    file_count: nat,
    file_version: u64,
    result: SearchResult,
)
    requires
        before.next_search_id < u64::MAX,
        result.id <= before.next_search_id,
    ensures
        ({
            let asked = before.with_request(file_count, file_version);
            &&& asked.with_result(result) == asked
            &&& asked.latest_search_id > before.next_search_id
            &&& asked.query == before.query
            &&& asked.matches == before.matches
            &&& asked.selected == before.selected
        }),
{
}

/// While nothing changes, nothing is searched again. A change of the query, of the
/// scope or of the entries makes for a search.
pub proof fn lemma_change_makes_search(
    before: App,
    file_count: nat,
    file_version: u64,
    after: App,
    later_count: nat,
    later_version: u64,
)
    requires
        !before.needs_search(file_count, file_version),
        after.last_query == before.last_query,
        after.last_file_count == before.last_file_count,
        after.last_file_version == before.last_file_version,
        after.last_scope == before.last_scope,
    ensures
        after.needs_search(later_count, later_version) <==> (after.query@ != before.query@
            || after.scope() != before.scope() || later_count != file_count || later_version
            != file_version),
{
}

// ---------------------------------------------------------------------------
// Pools
// ---------------------------------------------------------------------------

/// The pool that is loaded is the one that is searched. Directories are looked for if
/// and only if directories are picked, and the entries have to be recent if and only
/// if the recent ones are picked.
pub proof fn lemma_searched_pool_is_loaded(state: App)
    ensures
        state.order_for_mode().pool == state.pool_of(state.scope()),
        state.order_for_mode().dir_mode == state.dir_mode,
        state.order_for_mode().recent_only == (!state.dir_mode && state.search_scope
            == SearchScope::Recent),
        state.order_for_mode().feeds_all == state.order_for_mode().recent_only,
        state.pool_of(state.scope()) == PoolId::Directories <==> state.dir_mode,
        app::loads_all(state) ==> app::all_order() == state.order_for_mode(),
{
}

/// The two scopes of files have two pools, and directories have another one.
pub proof fn lemma_pools_apart(files: App, directories: App)
    requires
        !files.dir_mode,
        directories.dir_mode,
    ensures
        files.pool_of(SearchScope::Recent) != files.pool_of(SearchScope::All),
        forall|a: SearchScope, b: SearchScope|
            #![trigger files.pool_of(a), directories.pool_of(b)]
            files.pool_of(a) != directories.pool_of(b),
        forall|a: SearchScope, b: SearchScope|
            #![trigger directories.pool_of(a), directories.pool_of(b)]
            directories.pool_of(a) == directories.pool_of(b),
{
}

// ---------------------------------------------------------------------------
// The selection
// ---------------------------------------------------------------------------

/// The selected path is that of the match in the selected row of the active column,
/// and there is one as long as the row holds a match.
pub proof fn lemma_selected_path(state: App)
    requires
        state.wf(),
    ensures
        state.chosen_path() is Some <==> state.selected < state.shown_matches().len(),
        state.active_column == Column::Ranked && state.selected < state.matches@.len()
            ==> state.chosen_path() == Some(
            state.matches_files@[state.matches@[state.selected as int].index as int]@.path,
        ),
        state.active_column == Column::Recent && state.selected < state.matches_by_time@.len()
            ==> state.chosen_path() == Some(
            state.matches_files@[state.matches_by_time@[state.selected as int].index as int]@.path,
        ),
{
    if state.selected < state.shown_matches().len() {
        assert(state.shown_matches()[state.selected as int].index < state.matches_files@.len());
    }
}

/// Whether a key is one that goes to the next row.
pub open spec fn is_down(code: KeyCode, modifiers: KeyModifiers) -> bool {
    ||| code == KeyCode::Down
    ||| code == KeyCode::Tab && modifiers == KeyModifiers::Bare
    ||| (code == KeyCode::Char('n') || code == KeyCode::Char('j')) && modifiers
        == KeyModifiers::Control
}

/// Whether a key is one that goes to the row before.
pub open spec fn is_up(code: KeyCode, modifiers: KeyModifiers) -> bool {
    ||| code == KeyCode::Up
    ||| code == KeyCode::BackTab
    ||| code == KeyCode::Char('k') && modifiers == KeyModifiers::Control
}

/// A key for the next row selects it, and does nothing in the last row.
pub proof fn lemma_down(code: KeyCode, modifiers: KeyModifiers, before: App, after: App)
    requires
        is_down(code, modifiers),
        leads_to(code, modifiers, before, after),
    ensures
        same_but_row(before, after),
        before.selected + 1 < before.shown_matches().len() ==> after.selected == before.selected
            + 1,
        before.selected + 1 >= before.shown_matches().len() ==> after == before,
{
    assert(before.matches.len() <= usize::MAX);
    assert(before.matches_by_time.len() <= usize::MAX);
}

/// A key for the row before selects it, and does nothing in the first row.
pub proof fn lemma_up(code: KeyCode, modifiers: KeyModifiers, before: App, after: App)
    requires
        is_up(code, modifiers),
        leads_to(code, modifiers, before, after),
    ensures
        same_but_row(before, after),
        before.selected > 0 ==> after.selected == before.selected - 1,
        before.selected == 0 ==> after == before,
{
}

/// Down and up again leads back, unless the selection is in the last row.
pub proof fn lemma_down_and_up(
    down: (KeyCode, KeyModifiers),
    up: (KeyCode, KeyModifiers),
    before: App,
    between: App,
    after: App,
)
    requires
        is_down(down.0, down.1),
        is_up(up.0, up.1),
        before.selected + 1 < before.shown_matches().len(),
        leads_to(down.0, down.1, before, between),
        leads_to(up.0, up.1, between, after),
    ensures
        after == before,
        between != before,
{
    lemma_down(down.0, down.1, before, between);
    lemma_up(up.0, up.1, between, after);
}

/// `Ctrl+h` shows the matches by score and `Ctrl+l` those by use. The matches stay,
/// and so does the selected row as long as there is a match in it.
pub proof fn lemma_columns(before: App, ranked: App, recent: App)
    requires
        leads_to(KeyCode::Char('h'), KeyModifiers::Control, before, ranked),
        leads_to(KeyCode::Char('l'), KeyModifiers::Control, before, recent),
    ensures
        ranked.active_column == Column::Ranked,
        recent.active_column == Column::Recent,
        ranked.shown_matches() == before.matches@,
        recent.shown_matches() == before.matches_by_time@,
        ranked == (App { active_column: Column::Ranked, selected: ranked.selected, ..before }),
        recent == (App { active_column: Column::Recent, selected: recent.selected, ..before }),
        before.selected < before.matches@.len() ==> ranked.selected == before.selected,
        before.selected < before.matches_by_time@.len() ==> recent.selected == before.selected,
{
}

// ---------------------------------------------------------------------------
// The query
// ---------------------------------------------------------------------------

/// Whether two states differ in the query and the selected row at most, with the
/// first row selected in the second.
pub open spec fn same_but_query(before: App, after: App) -> bool {
    after == App { query: after.query, selected: 0, ..before }
}

/// A character, with the shift key or without, goes to the end of the query.
pub proof fn lemma_typed(c: char, modifiers: KeyModifiers, before: App, after: App)
    requires
        modifiers == KeyModifiers::Bare || modifiers == KeyModifiers::Shift,
        leads_to(KeyCode::Char(c), modifiers, before, after),
    ensures
        same_but_query(before, after),
        after.query@ == before.query@ + seq![c],
{
    assert(before.query@.push(c) =~= before.query@ + seq![c]);
}

/// The backspace key takes the last character of the query, and `Ctrl+u` all of them.
pub proof fn lemma_erased(start: Seq<char>, c: char, before: App, shorter: App, empty: App)
    requires
        before.query@ == start + seq![c],
        leads_to(KeyCode::Backspace, KeyModifiers::Bare, before, shorter),
        leads_to(KeyCode::Char('u'), KeyModifiers::Control, before, empty),
    ensures
        same_but_query(before, shorter),
        same_but_query(before, empty),
        shorter.query@ == start,
        empty.query@.len() == 0,
{
    assert(before.query@.drop_last() =~= start);
}

/// Blanks at the end of a text go, and nothing else.
proof fn lemma_blanks_go(text: Seq<char>, blanks: Seq<char>)
    requires
        text.len() > 0 ==> text.last() != ' ',
        forall|i: int| 0 <= i < blanks.len() ==> #[trigger] blanks[i] == ' ',
    ensures
        keys::without_blanks(text + blanks) == text,
    decreases blanks.len(),
{
    if blanks.len() > 0 {
        assert((text + blanks).drop_last() =~= text + blanks.drop_last());
        assert((text + blanks).last() == blanks[blanks.len() - 1]);
        assert forall|i: int| 0 <= i < blanks.drop_last().len() implies #[trigger]
            blanks.drop_last()[i] == ' ' by {
            assert(blanks[i] == ' ');
        }
        lemma_blanks_go(text, blanks.drop_last());
    } else {
        assert(text + blanks =~= text);
    }
}

/// A word at the end of a text goes, and nothing else.
proof fn lemma_word_goes(text: Seq<char>, word: Seq<char>)
    requires
        text.len() > 0 ==> text.last() == ' ',
        forall|i: int| 0 <= i < word.len() ==> #[trigger] word[i] != ' ',
    ensures
        keys::without_tail(text + word) == text,
    decreases word.len(),
{
    if word.len() > 0 {
        assert((text + word).drop_last() =~= text + word.drop_last());
        assert((text + word).last() == word[word.len() - 1]);
        assert forall|i: int| 0 <= i < word.drop_last().len() implies #[trigger]
            word.drop_last()[i] != ' ' by {
            assert(word[i] != ' ');
        }
        lemma_word_goes(text, word.drop_last());
    } else {
        assert(text + word =~= text);
    }
}

/// `Ctrl+w`, and the backspace key with the alt key, take the last word of the query
/// with the blanks behind it. The blanks before it stay.
pub proof fn lemma_word_erased(
    start: Seq<char>,
    word: Seq<char>,
    blanks: Seq<char>,
    code: KeyCode,
    modifiers: KeyModifiers,
    before: App,
    after: App,
)
    requires
        code == KeyCode::Char('w') && modifiers == KeyModifiers::Control || code
            == KeyCode::Backspace && modifiers == KeyModifiers::Alt,
        start.len() > 0 ==> start.last() == ' ',
        word.len() > 0,
        forall|i: int| 0 <= i < word.len() ==> #[trigger] word[i] != ' ',
        forall|i: int| 0 <= i < blanks.len() ==> #[trigger] blanks[i] == ' ',
        before.query@ == start + word + blanks,
        leads_to(code, modifiers, before, after),
    ensures
        same_but_query(before, after),
        after.query@ == start,
{
    assert((start + word).last() == word[word.len() - 1]);
    lemma_blanks_go(start + word, blanks);
    lemma_word_goes(start, word);
}

/// A key that changes the query changes what is searched for: where the last request
/// was for the query as it was, another one is made.
pub proof fn lemma_typing_makes_search(
    c: char,
    before: App,
    after: App,
    file_count: nat,
    file_version: u64,
)
    requires
        !before.needs_search(file_count, file_version),
        leads_to(KeyCode::Char(c), KeyModifiers::Bare, before, after),
    ensures
        after.needs_search(file_count, file_version),
{
    assert(after.query@.len() == before.query@.len() + 1);
}

// ---------------------------------------------------------------------------
// Scopes and kinds of entries
// ---------------------------------------------------------------------------

/// `Ctrl+z` goes over to the other scope of files, and a second time back. The query
/// and the matches stay. It makes for a search.
pub proof fn lemma_scope_key(
    before: App,
    between: App,
    after: App,
    file_count: nat,
    file_version: u64,
)
    requires
        !before.dir_mode,
        leads_to(KeyCode::Char('z'), KeyModifiers::Control, before, between),
        leads_to(KeyCode::Char('z'), KeyModifiers::Control, between, after),
        file_version != u64::MAX,
    ensures
        between.scope() != before.scope(),
        after.scope() == before.scope(),
        between.query == before.query,
        between.matches == before.matches,
        between.matches_by_time == before.matches_by_time,
        between.selected == 0,
        !between.dir_mode,
        between.needs_search(file_count, file_version),
{
}

/// With directories, `Ctrl+z` does nothing.
pub proof fn lemma_scope_key_with_directories(before: App, after: App)
    requires
        before.dir_mode,
        leads_to(KeyCode::Char('z'), KeyModifiers::Control, before, after),
    ensures
        after == before,
{
}

/// `Ctrl+p` goes over from files to directories, and a second time back, to the scope
/// that was searched before. The query stays. Nothing that was found is shown any
/// more, and it makes for a search.
pub proof fn lemma_entries_key(
    before: App,
    between: App,
    after: App,
    file_count: nat,
    file_version: u64,
)
    requires
        leads_to(KeyCode::Char('p'), KeyModifiers::Control, before, between),
        leads_to(KeyCode::Char('p'), KeyModifiers::Control, between, after),
        file_version != u64::MAX,
    ensures
        between.dir_mode != before.dir_mode,
        after.dir_mode == before.dir_mode,
        after.scope() == before.scope(),
        between.query == before.query,
        between.shown_matches().len() == 0,
        between.chosen_path() is None,
        between.preview_content is Nothing,
        between.needs_search(file_count, file_version),
{
}

/// Going over to other entries or to another scope makes the preview be looked at
/// afresh.
pub proof fn lemma_preview_starts_afresh(before: App, entries: App, scope: App)
    requires
        leads_to(KeyCode::Char('p'), KeyModifiers::Control, before, entries),
        leads_to(KeyCode::Char('z'), KeyModifiers::Control, before, scope),
    ensures
        entries.preview_path@.len() == 0,
        !before.dir_mode ==> scope.preview_path@.len() == 0,
{
}

// ---------------------------------------------------------------------------
// Leaving
// ---------------------------------------------------------------------------

/// What is done on leaving is done with the selected path. With a file to write the
/// choice to it is written there, else it is dragged or opened.
pub proof fn lemma_accepted(
    state: App,
    for_selection: bool,
    path: Seq<char>,
    action: ExitAction,
)
    requires
        keys::accepted(state, for_selection, path, action),
    ensures
        match action {
            ExitAction::Choose(p) => p@ == path && for_selection,
            ExitAction::Drag(p) => p@ == path && !for_selection && state.drag_mode,
            ExitAction::Open(p) => p@ == path && !for_selection && !state.drag_mode,
        },
{
}

/// A key with the control key changes nothing but for those that have a meaning.
pub proof fn lemma_other_keys(c: char, modifiers: KeyModifiers, before: App, after: App)
    requires
        leads_to(KeyCode::Char(c), modifiers, before, after),
        modifiers == KeyModifiers::Control ==> c != 'n' && c != 'j' && c != 'k' && c != 'p' && c
            != 'h' && c != 'l' && c != 'z' && c != 'u' && c != 'w',
        modifiers != KeyModifiers::Bare && modifiers != KeyModifiers::Shift,
    ensures
        after == before,
{
}

/// No key changes what has been found, but for the one that goes over to other
/// entries.
pub proof fn lemma_keys_keep_matches(
    code: KeyCode,
    modifiers: KeyModifiers,
    before: App,
    after: App,
)
    requires
        leads_to(code, modifiers, before, after),
        !(code == KeyCode::Char('p') && modifiers == KeyModifiers::Control),
    ensures
        after.matches == before.matches,
        after.matches_by_time == before.matches_by_time,
        after.matches_files == before.matches_files,
        after.dir_mode == before.dir_mode,
        after.drag_mode == before.drag_mode,
{
}

/// What is put into the pool that is searched makes for a search, whatever it is.
pub proof fn lemma_news_make_search(
    state: App,
    before: EntryPool,
    after: EntryPool,
    loaded: Seq<FileEntry>,
)
    requires
        !state.needs_search(before.files@.len(), before.version),
        pool::is_published(before, after, loaded),
    ensures
        state.needs_search(after.files@.len(), after.version),
        after.files@ == loaded,
{
}

/// The escape and enter keys leave the picker, and so does `Ctrl+d`. No other key does:
/// what is typed never leaves.
pub proof fn lemma_leaving_keys(code: KeyCode, modifiers: KeyModifiers, c: char)
    ensures
        keys::leaves(keys::command_for(KeyCode::Esc, modifiers)),
        keys::leaves(keys::command_for(KeyCode::Enter, modifiers)),
        keys::leaves(keys::command_for(KeyCode::Char('d'), KeyModifiers::Control)),
        keys::leaves(keys::command_for(code, modifiers)) ==> code == KeyCode::Esc || code
            == KeyCode::Enter || (code == KeyCode::Char('d') && modifiers == KeyModifiers::Control),
        keys::command_for(KeyCode::Esc, modifiers) != keys::command_for(KeyCode::Enter, modifiers),
{
}

/// A key that leaves the picker changes nothing in it.
pub proof fn lemma_leaving_changes_nothing(
    code: KeyCode,
    modifiers: KeyModifiers,
    before: App,
    after: App,
)
    requires
        keys::leaves(keys::command_for(code, modifiers)),
        leads_to(code, modifiers, before, after),
    ensures
        after == before,
{
}

} // verus!
