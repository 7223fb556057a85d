//! The decisions of the terminal front end: what each key press does to the
//! query, the modes and the selection, and which outside action (opening,
//! deleting, adding a bookmark, quitting) it asks the front end to perform.
//! The front end reads the keys, draws, and performs the actions.

use vstd::prelude::*;
use crate::launcher::{trim, trim_spec, App, SearchMode};
use crate::text::{chars_start_with, find_char, lemma_find_from_bounds, str_chars, string_pop, string_push};

verus! {

broadcast use vstd::string::group_string_axioms;

/// A key the front end passes on (presses only).
#[derive(Clone, Copy, Debug, PartialEq, Eq, Structural)]
pub enum Key {
    Char(char),
    Esc,
    Backspace,
    Up,
    Down,
    Enter,
    Other,
}

/// A key press, with whether Control was held.
#[derive(Clone, Copy, Debug, PartialEq, Eq, Structural)]
pub struct KeyPress {
    pub key: Key,
    pub control: bool,
}

/// What the front end is to do after a key press.
#[derive(Clone, Debug, PartialEq, Eq)]
pub enum Effect {
    /// Keep running.
    Continue,
    /// Quit.
    Quit,
    /// Delete the entry at this index, then quit.
    Delete(usize),
    /// Add a bookmark for this URL and open it, then quit.
    AddUrl(String),
    /// Count an opening of the entry at this index and open it, then quit.
    Launch(usize),
}

/// The selection in the result list and the entry awaiting confirmation of
/// its deletion, if any.
#[derive(Clone, Copy, Debug, PartialEq, Eq, Structural)]
pub struct UiState {
    pub selected: usize,
    pub confirm_delete: Option<usize>,
}

/// Whether the trimmed query looks like a URL to bookmark: nonempty, and
/// starting with `http://` or `https://` or holding a `.`.
pub open spec fn is_url_like(query: Seq<char>) -> bool {
    let t = trim_spec(query);
    t.len() > 0 && (("http://"@.len() <= t.len() && t.take("http://"@.len() as int) == "http://"@) || (
    "https://"@.len() <= t.len() && t.take("https://"@.len() as int) == "https://"@) || t.contains('.'))
}

/// The trimmed query, if it looks like a URL.
pub fn url_like_query(query: &str) -> (r: Option<String>)
    ensures
        match r {
            Some(u) => is_url_like(query@) && u@ == trim_spec(query@),
            None => !is_url_like(query@),
        },
{
    let t = trim(query);
    let cs = str_chars(t.as_str());
    if cs.len() == 0 {
        return None;
    }
    let http = str_chars("http://");
    let https = str_chars("https://");
    let dot = find_char(&cs, '.', 0);
    proof {
        lemma_find_from_bounds(cs@, '.', 0);
        if cs@.contains('.') {
            let k = choose|k: int| 0 <= k < cs@.len() && cs@[k] == '.';
            assert(dot <= k);
        }
    }
    if chars_start_with(&cs, &http) || chars_start_with(&cs, &https) || dot < cs.len() {
        Some(t)
    } else {
        None
    }
}

/// A Control key with a meaning of its own: `f`, `t`, `s`, `p`, `n`, `q`, `d`.
pub open spec fn is_control_command(press: KeyPress) -> bool {
    press.control && match press.key {
        Key::Char(c) => c == 'f' || c == 't' || c == 's' || c == 'p' || c == 'n' || c == 'q' || c == 'd',
        _ => false,
    }
}

/// The selection moved up one row (not above the first).
pub open spec fn moved_up(s: usize) -> usize {
    if s > 0 {
        (s - 1) as usize
    } else {
        0
    }
}

/// The selection moved down one row, if there is a row below.
pub open spec fn moved_down(s: usize, n: int) -> usize {
    if s + 1 < n {
        (s + 1) as usize
    } else {
        s
    }
}

/// The selection kept within `n` results: the last row if it is past them.
pub open spec fn clamped(s: usize, n: int) -> usize {
    if n > 0 && s >= n {
        (n - 1) as usize
    } else {
        s
    }
}

/// Keeps the selection within the results (before drawing them).
pub fn clamp_selection(ui: &mut UiState, result_count: usize)
    ensures
        final(ui).selected == clamped(old(ui).selected, result_count as int),
        final(ui).confirm_delete == old(ui).confirm_delete,
{
    if result_count > 0 && ui.selected >= result_count {
        ui.selected = result_count - 1;
    }
}

/// Handles one key press: edits the query and the modes, moves the
/// selection, and says what else to do.
///
/// While a deletion awaits confirmation, `y` confirms it and `n` or Escape
/// cancels it; nothing else is done. With Control, `f` and `t` switch to
/// fuzzy and migemo search, `s` toggles the sort, `p` and `n` move the
/// selection, `q` quits, and `d` asks to confirm deleting the selected entry
/// (and, like other Control keys, goes on to be handled as a plain key).
/// Plain keys: Escape quits, a char is typed into the query, Backspace
/// erases the last one, Up and Down move the selection, and Enter bookmarks a
/// URL-like query that nothing matched, else launches the selected entry.
pub fn handle_key(app: &mut App, ui: &mut UiState, results: &Vec<(usize, i64)>, press: KeyPress) -> (r: Effect)
    ensures
        final(app).entries() == old(app).entries(),
        final(app).dict() == old(app).dict(),
        old(ui).confirm_delete is Some ==> match press.key {
            Key::Char('y') => r == Effect::Delete(old(ui).confirm_delete->0) && final(ui).confirm_delete is None
                && final(ui).selected == old(ui).selected,
            Key::Char('n') | Key::Esc => r == Effect::Continue && final(ui).confirm_delete is None
                && final(ui).selected == old(ui).selected,
            _ => r == Effect::Continue && *final(ui) == *old(ui),
        } && final(app).query_view() == old(app).query_view() && final(app).mode() == old(app).mode()
            && final(app).sort() == old(app).sort(),
        (old(ui).confirm_delete is None && press.control && press.key == Key::Char('f')) ==> r == Effect::Continue
            && final(app).mode() == SearchMode::Fuzzy && final(ui).selected == 0 && final(app).query_view()
            == old(app).query_view(),
        (old(ui).confirm_delete is None && press.control && press.key == Key::Char('t')) ==> r == Effect::Continue
            && final(app).mode() == SearchMode::Migemo && final(ui).selected == 0 && final(app).query_view()
            == old(app).query_view(),
        (old(ui).confirm_delete is None && press.control && press.key == Key::Char('s')) ==> r == Effect::Continue
            && final(app).sort() != old(app).sort() && final(ui).selected == 0,
        (old(ui).confirm_delete is None && press.control && press.key == Key::Char('p')) ==> r == Effect::Continue
            && final(ui).selected == moved_up(old(ui).selected),
        (old(ui).confirm_delete is None && press.control && press.key == Key::Char('n')) ==> r == Effect::Continue
            && final(ui).selected == moved_down(old(ui).selected, results@.len() as int),
        (old(ui).confirm_delete is None && press.control && press.key == Key::Char('q')) ==> r == Effect::Quit,
        (old(ui).confirm_delete is None && press.control && press.key == Key::Char('d')) ==> r == Effect::Continue
            && final(ui).confirm_delete == (if old(ui).selected < results@.len() {
                Some(results@[old(ui).selected as int].0)
            } else {
                None
            }) && final(app).query_view() == old(app).query_view().push('d') && final(ui).selected == 0,
        (old(ui).confirm_delete is None && !is_control_command(press)) ==> match press.key {
            Key::Esc => r == Effect::Quit,
            Key::Char(c) => r == Effect::Continue && final(app).query_view() == old(app).query_view().push(c)
                && final(ui).selected == 0,
            Key::Backspace => r == Effect::Continue && final(app).query_view() == (if old(app).query_view().len()
                > 0 {
                old(app).query_view().drop_last()
            } else {
                old(app).query_view()
            }) && final(ui).selected == 0,
            Key::Up => r == Effect::Continue && final(ui).selected == moved_up(old(ui).selected),
            Key::Down => r == Effect::Continue && final(ui).selected == moved_down(
                old(ui).selected,
                results@.len() as int,
            ),
            Key::Enter => if is_url_like(old(app).query_view()) && results@.len() == 0 {
                r matches Effect::AddUrl(u) && u@ == trim_spec(old(app).query_view())
            } else if old(ui).selected < results@.len() {
                r == Effect::Launch(results@[old(ui).selected as int].0)
            } else {
                r == Effect::Continue
            },
            Key::Other => r == Effect::Continue,
        },
        (old(ui).confirm_delete is None && !(press.key matches Key::Char(_)) && press.key != Key::Backspace)
            ==> final(app).query_view() == old(app).query_view(),
        (old(ui).confirm_delete is None && !press.control) ==> final(app).mode() == old(app).mode()
            && final(app).sort() == old(app).sort(),
        (old(ui).confirm_delete is None && !(press.control && press.key == Key::Char('d')))
            ==> final(ui).confirm_delete is None,
        (old(ui).confirm_delete is None && press.control && press.key != Key::Char('s')) ==> final(app).sort()
            == old(app).sort(),
        (old(ui).confirm_delete is None && press.control && press.key != Key::Char('f') && press.key != Key::Char(
            't',
        )) ==> final(app).mode() == old(app).mode(),
        (old(ui).confirm_delete is None && is_control_command(press) && press.key != Key::Char('d'))
            ==> final(app).query_view() == old(app).query_view(),
        (old(ui).confirm_delete is None && (press.key == Key::Esc || press.key == Key::Enter || press.key
            == Key::Other)) ==> *final(ui) == *old(ui),
        (old(ui).confirm_delete is None && press.control && press.key == Key::Char('q')) ==> *final(ui)
            == *old(ui),
{
    if let Some(idx) = ui.confirm_delete {
        match press.key {
            Key::Char('y') => {
                ui.confirm_delete = None;
                return Effect::Delete(idx);
            },
            Key::Char('n') | Key::Esc => {
                ui.confirm_delete = None;
                return Effect::Continue;
            },
            _ => {
                return Effect::Continue;
            },
        }
    }
    if press.control {
        match press.key {
            Key::Char('f') => {
                app.set_search_mode(SearchMode::Fuzzy);
                ui.selected = 0;
                return Effect::Continue;
            },
            Key::Char('t') => {
                app.set_search_mode(SearchMode::Migemo);
                ui.selected = 0;
                return Effect::Continue;
            },
            Key::Char('p') => {
                if ui.selected > 0 {
                    ui.selected = ui.selected - 1;
                }
                return Effect::Continue;
            },
            Key::Char('n') => {
                if results.len() > 0 && ui.selected < results.len() - 1 {
                    ui.selected = ui.selected + 1;
                }
                return Effect::Continue;
            },
            Key::Char('s') => {
                app.toggle_sort_mode();
                ui.selected = 0;
                return Effect::Continue;
            },
            Key::Char('q') => {
                return Effect::Quit;
            },
            Key::Char('d') => {
                if ui.selected < results.len() {
                    ui.confirm_delete = Some(results[ui.selected].0);
                }
            },
            _ => {},
        }
    }
    match press.key {
        Key::Esc => Effect::Quit,
        Key::Char(c) => {
            string_push(app.query_mut(), c);
            ui.selected = 0;
            Effect::Continue
        },
        Key::Backspace => {
            let _ = string_pop(app.query_mut());
            ui.selected = 0;
            Effect::Continue
        },
        Key::Up => {
            if ui.selected > 0 {
                ui.selected = ui.selected - 1;
            }
            Effect::Continue
        },
        Key::Down => {
            if results.len() > 0 && ui.selected < results.len() - 1 {
                ui.selected = ui.selected + 1;
            }
            Effect::Continue
        },
        Key::Enter => {
            match url_like_query(app.query()) {
                Some(url) if results.len() == 0 => Effect::AddUrl(url),
                _ => {
                    if ui.selected < results.len() {
                        Effect::Launch(results[ui.selected].0)
                    } else {
                        Effect::Continue
                    }
                },
            }
        },
        Key::Other => Effect::Continue,
    }
}

/// The text of runs, concatenated.
pub open spec fn runs_text(rs: Seq<(bool, Seq<char>)>) -> Seq<char>
    decreases rs.len(),
{
    if rs.len() == 0 {
        seq![]
    } else {
        runs_text(rs.drop_last()) + rs.last().1
    }
}

/// The views of highlight runs.
pub open spec fn runs_view(v: Seq<(bool, String)>) -> Seq<(bool, Seq<char>)> {
    v.map_values(|r: (bool, String)| (r.0, r.1@))
}

/// Runs that split `text` at every change of highlighting: they spell the
/// text, none is empty, neighbours differ, and each is highlighted exactly
/// when the positions of its chars are among `marked`.
pub open spec fn splits_by_highlight(rs: Seq<(bool, Seq<char>)>, text: Seq<char>, marked: Seq<int>) -> bool {
    &&& runs_text(rs) == text
    &&& forall|k: int| 0 <= k < rs.len() ==> (#[trigger] rs[k]).1.len() > 0
    &&& forall|k: int| 0 < k < rs.len() ==> (#[trigger] rs[k]).0 != rs[k - 1].0
    &&& forall|k: int, j: int|
        0 <= k < rs.len() && 0 <= j < rs[k].1.len() ==> #[trigger] run_char_agrees(rs, marked, k, j)
}

/// The `j`-th char of the `k`-th run is highlighted exactly when its position
/// in the whole text is marked.
pub open spec fn run_char_agrees(rs: Seq<(bool, Seq<char>)>, marked: Seq<int>, k: int, j: int) -> bool {
    rs[k].0 == marked.contains(runs_text(rs.take(k)).len() + j)
}

/// Appending a run keeps what held of the earlier ones, and the new run
/// agrees with the marks where its chars agree at their positions.
proof fn lemma_push_run(before: Seq<(bool, Seq<char>)>, run: (bool, Seq<char>), marked: Seq<int>)
    requires
        forall|j: int| 0 <= j < run.1.len() ==> run.0 == #[trigger] marked.contains(runs_text(before).len() + j),
    ensures
        forall|k: int, j: int|
            0 <= k < before.len() && 0 <= j < before[k].1.len() ==> (run_char_agrees(before.push(run), marked, k, j)
                == run_char_agrees(before, marked, k, j)),
        forall|j: int| 0 <= j < run.1.len() ==> #[trigger] run_char_agrees(before.push(run), marked, before.len() as int, j),
        runs_text(before.push(run)) == runs_text(before) + run.1,
{
    let rv = before.push(run);
    assert(rv.drop_last() =~= before);
    assert(rv.take(before.len() as int) =~= before);
    assert forall|k: int, j: int|
        0 <= k < before.len() && 0 <= j < before[k].1.len() implies (run_char_agrees(rv, marked, k, j) == run_char_agrees(before, marked, k, j)) by {
        assert(rv.take(k) =~= before.take(k));
        assert(rv[k] == before[k]);
    }
    assert forall|j: int| 0 <= j < run.1.len() implies #[trigger] run_char_agrees(rv, marked, before.len() as int, j) by {
        assert(rv[before.len() as int] == run);
        assert(marked.contains(runs_text(before).len() + j) == run.0);
    }
}

/// Whether `i` is among the positions.
fn has_position(positions: &Vec<usize>, i: usize) -> (r: bool)
    ensures
        r == positions@.map_values(|p: usize| p as int).contains(i as int),
{
    let ghost pv = positions@.map_values(|p: usize| p as int);
    let mut k: usize = 0;
    while k < positions.len()
        invariant
            k <= positions.len(),
            pv == positions@.map_values(|p: usize| p as int),
            forall|x: int| 0 <= x < k ==> pv[x] != i,
        decreases positions.len() - k,
    {
        if positions[k] == i {
            assert(pv[k as int] == i);
            return true;
        }
        k += 1;
    }
    false
}

/// Splits `text` into runs of highlighted and plain chars, the highlighted
/// ones being those whose positions are in `positions`: what the front end
/// draws in two styles.
pub fn highlight_runs(text: &str, positions: &Vec<usize>) -> (r: Vec<(bool, String)>)
    ensures
        splits_by_highlight(runs_view(r@), text@, positions@.map_values(|p: usize| p as int)),
{
    let ghost marked = positions@.map_values(|p: usize| p as int);
    let cs = str_chars(text);
    let mut runs: Vec<(bool, String)> = Vec::new();
    let mut buf = String::new();
    let mut cur = false;
    let mut i: usize = 0;
    while i < cs.len()
        invariant
            i <= cs.len(),
            cs@ == text@,
            marked == positions@.map_values(|p: usize| p as int),
            runs_text(runs_view(runs@)) + buf@ == cs@.take(i as int),
            forall|k: int| 0 <= k < runs@.len() ==> (#[trigger] runs_view(runs@)[k]).1.len() > 0,
            forall|k: int| 0 < k < runs@.len() ==> (#[trigger] runs_view(runs@)[k]).0 != runs_view(runs@)[k - 1].0,
            buf@.len() > 0 && runs@.len() > 0 ==> runs@.last().0 != cur,
            buf@.len() == 0 ==> runs@.len() == 0,
            forall|k: int, j: int|
                0 <= k < runs@.len() && 0 <= j < runs_view(runs@)[k].1.len() ==> #[trigger] run_char_agrees(
                    runs_view(runs@),
                    marked,
                    k,
                    j,
                ),
            forall|j: int|
                0 <= j < buf@.len() ==> cur == #[trigger] marked.contains(runs_text(runs_view(runs@)).len() + j),
        decreases cs.len() - i,
    {
        let lit = has_position(positions, i);
        if lit != cur && !buf.as_str().is_empty() {
            // close the current run
            let ghost before = runs_view(runs@);
            let mut next = String::new();
            std::mem::swap(&mut next, &mut buf);
            runs.push((cur, next));
            proof {
                let rv = runs_view(runs@);
                assert(rv =~= before.push((cur, next@)));
                assert(rv.drop_last() =~= before);
                assert(rv.take(before.len() as int) =~= before);
                lemma_push_run(before, (cur, next@), marked);
                assert forall|k: int, j: int| 0 <= k < rv.len() && 0 <= j < rv[k].1.len() implies #[trigger] run_char_agrees(rv, marked, k, j) by {
                    if k < before.len() {
                        assert(run_char_agrees(before, marked, k, j));
                        assert(rv[k] == before[k]);
                    }
                }
                assert(runs@.last().0 == cur);
            }
        }
        let ghost old_buf = buf@;
        let ghost was_cur = cur;
        cur = lit;
        string_push(&mut buf, cs[i]);
        proof {
            let rt = runs_text(runs_view(runs@));
            assert(rt + old_buf == cs@.take(i as int));
            assert((rt + old_buf).len() == rt.len() + old_buf.len());
            assert(cs@.take(i as int).len() == i);
            assert(rt.len() + old_buf.len() == i);
            assert(old_buf.len() > 0 ==> was_cur == lit);
            assert forall|j: int| 0 <= j < buf@.len() implies cur == #[trigger] marked.contains(rt.len() + j) by {
                if j < old_buf.len() {
                    assert(was_cur == marked.contains(rt.len() + j));
                } else {
                    assert(rt.len() + j == i);
                }
            }
            assert(rt + buf@ =~= (rt + old_buf).push(cs@[i as int]));
        }
        assert(cs@.take(i + 1) =~= cs@.take(i as int).push(cs@[i as int]));
        i += 1;
    }
    if !buf.as_str().is_empty() {
        let ghost before = runs_view(runs@);
        runs.push((cur, buf));
        proof {
            let rv = runs_view(runs@);
            assert(rv =~= before.push((cur, rv.last().1)));
            assert(rv.drop_last() =~= before);
            assert(rv.take(before.len() as int) =~= before);
            lemma_push_run(before, (cur, rv.last().1), marked);
            assert forall|k: int, j: int| 0 <= k < rv.len() && 0 <= j < rv[k].1.len() implies #[trigger] run_char_agrees(rv, marked, k, j) by {
                if k < before.len() {
                    assert(run_char_agrees(before, marked, k, j));
                    assert(rv[k] == before[k]);
                }
            }
            assert forall|k: int| 0 < k < rv.len() implies (#[trigger] rv[k]).0 != rv[k - 1].0 by {
                if k == rv.len() - 1 {
                    assert(rv[k - 1] == before[k - 1]);
                } else {
                    assert(rv[k] == before[k] && rv[k - 1] == before[k - 1]);
                }
            }
            assert forall|k: int| 0 <= k < rv.len() implies (#[trigger] rv[k]).1.len() > 0 by {
                if k < before.len() {
                    assert(rv[k] == before[k]);
                }
            }
        }
    } else {
        assert(runs_text(runs_view(runs@)) + buf@ =~= runs_text(runs_view(runs@)));
    }
    assert(cs@.take(cs.len() as int) =~= cs@);
    runs
}

/// What Enter does in the windowed front end, which always closes after it:
/// a URL-like query is bookmarked (and opened) whatever it matched, else the
/// first result is launched, else nothing more happens.
pub fn window_enter_effect(query: &str, results: &Vec<(usize, i64)>) -> (r: Effect)
    ensures
        is_url_like(query@) ==> (r matches Effect::AddUrl(u) && u@ == trim_spec(query@)),
        !is_url_like(query@) && trim_spec(query@).len() > 0 && results@.len() > 0 ==> r == Effect::Launch(results@[0].0),
        !is_url_like(query@) && (trim_spec(query@).len() == 0 || results@.len() == 0) ==> r == Effect::Quit,
{
    match url_like_query(query) {
        Some(url) => Effect::AddUrl(url),
        None => {
            let t = trim(query);
            if !t.as_str().is_empty() && results.len() > 0 {
                Effect::Launch(results[0].0)
            } else {
                Effect::Quit
            }
        },
    }
}

} // verus!
