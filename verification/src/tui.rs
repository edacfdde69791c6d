//! The rules of the terminal view: which habit is selected, which screen is
//! shown, and what each key does. Drawing and reading keys happen outside.
use vstd::arithmetic::div_mod::{lemma_mod_pos_bound, lemma_mod_self_0, lemma_small_mod};
use vstd::prelude::*;

use crate::calendar::{in_calendar, Day};
use crate::streak::{
    grid, grid_text, is_progress, progress, progress_inputs_ok, qualifying_days, qualifying_set,
    Frequency,
};

verus! {

/// The selection after moving down a list of `len` items: the next item,
/// wrapping from the last to the first; the first when nothing was selected.
/// An empty list keeps the selection as it was.
pub open spec fn next_selection(selected: Option<usize>, len: usize) -> Option<usize> {
    if len == 0 {
        selected
    } else {
        match selected {
            Some(i) => Some(((i + 1) % (len as int)) as usize),
            None => Some(0),
        }
    }
}

/// The selection after moving up a list of `len` items: the previous item,
/// wrapping from the first to the last; the last when nothing was selected.
/// An empty list keeps the selection as it was.
pub open spec fn prev_selection(selected: Option<usize>, len: usize) -> Option<usize> {
    if len == 0 {
        selected
    } else {
        match selected {
            Some(i) => if i == 0 {
                Some((len - 1) as usize)
            } else {
                Some((i - 1) as usize)
            },
            None => Some((len - 1) as usize),
        }
    }
}

/// Moves the selection one item down, wrapping around.
pub fn select_next(selected: Option<usize>, len: usize) -> (r: Option<usize>)
    requires
        len == 0 || selected != Some(usize::MAX),
    ensures
        r == next_selection(selected, len),
{
    if len == 0 {
        return selected;
    }
    match selected {
        Some(i) => Some((i + 1) % len),
        None => Some(0),
    }
}

/// Moves the selection one item up, wrapping around.
pub fn select_prev(selected: Option<usize>, len: usize) -> (r: Option<usize>)
    ensures
        r == prev_selection(selected, len),
{
    if len == 0 {
        return selected;
    }
    match selected {
        Some(0) | None => Some(len - 1),
        Some(i) => Some(i - 1),
    }
}

/// The selection when the view opens: the first habit, if there is any.
pub fn initial_selection(len: usize) -> (r: Option<usize>)
    ensures
        r == (if len > 0 {
            Some(0usize)
        } else {
            None::<usize>
        }),
{
    if len > 0 {
        Some(0)
    } else {
        None
    }
}

/// The screen shown: the list of habits, or the grid of the selected one.
#[derive(Clone, Copy, Debug, PartialEq, Eq, Structural)]
pub enum Screen {
    List,
    Detail,
}

/// The keys that the view tells apart.
#[derive(Clone, Copy, Debug, PartialEq, Eq, Structural)]
pub enum Key {
    Char(char),
    Esc,
    Down,
    Up,
    Enter,
    Backspace,
    Other,
}

/// What a key press leads to: leave the view, or go on showing `view` with
/// `selected` selected.
#[derive(Clone, Copy, Debug, PartialEq, Eq, Structural)]
pub enum KeyOutcome {
    Quit,
    Show { view: Screen, selected: Option<usize> },
}

/// What a key does: `q` leaves from anywhere and Esc leaves the list; in the
/// list, Down and Up move the selection and Enter opens the grid when there is
/// a habit; in the grid, Esc and Backspace go back to the list. Any other key
/// changes nothing.
pub open spec fn key_outcome(view: Screen, selected: Option<usize>, key: Key, len: usize) -> KeyOutcome {
    if key == Key::Char('q') {
        KeyOutcome::Quit
    } else {
        match view {
            Screen::List => match key {
                Key::Esc => KeyOutcome::Quit,
                Key::Down => KeyOutcome::Show { view, selected: next_selection(selected, len) },
                Key::Up => KeyOutcome::Show { view, selected: prev_selection(selected, len) },
                Key::Enter => KeyOutcome::Show {
                    view: if len > 0 {
                        Screen::Detail
                    } else {
                        Screen::List
                    },
                    selected,
                },
                _ => KeyOutcome::Show { view, selected },
            },
            Screen::Detail => match key {
                Key::Esc | Key::Backspace => KeyOutcome::Show { view: Screen::List, selected },
                _ => KeyOutcome::Show { view, selected },
            },
        }
    }
}

/// Handles one key press.
pub fn handle_key(view: Screen, selected: Option<usize>, key: Key, len: usize) -> (r: KeyOutcome)
    requires
        len == 0 || selected != Some(usize::MAX),
    ensures
        r == key_outcome(view, selected, key, len),
{
    if key == Key::Char('q') {
        return KeyOutcome::Quit;
    }
    match view {
        Screen::List => match key {
            Key::Esc => KeyOutcome::Quit,
            Key::Down => KeyOutcome::Show { view, selected: select_next(selected, len) },
            Key::Up => KeyOutcome::Show { view, selected: select_prev(selected, len) },
            Key::Enter => {
                if len > 0 {
                    KeyOutcome::Show { view: Screen::Detail, selected }
                } else {
                    KeyOutcome::Show { view, selected }
                }
            },
            _ => KeyOutcome::Show { view, selected },
        },
        Screen::Detail => match key {
            Key::Esc | Key::Backspace => KeyOutcome::Show { view: Screen::List, selected },
            _ => KeyOutcome::Show { view, selected },
        },
    }
}

/// A line of the overview: a habit with its streak and record (in weeks for
/// a weekly goal, in days otherwise) and its grid.
pub struct HabitSummary {
    pub name: String,
    pub weekly: bool,
    pub streak: i32,
    pub record: i32,
    pub grid_text: String,
}

/// Number of days that the grid of the detail screen shows.
pub const DETAIL_DAYS: i32 = 28;

/// The summary of a habit under its goal `freq`: current streak and record as
/// `progress` gives them, and the grid of the last four weeks over the days
/// that met the habit's daily target `daily_target`.
pub fn summarize(name: String, checkins: &[Day], freq: &Frequency, daily_target: i32, today: Day) -> (r: HabitSummary)
    requires
        progress_inputs_ok(checkins@, *freq, today),
        in_calendar(today.num - (DETAIL_DAYS - 1)),
    ensures
        r.name@ == name@,
        r.weekly == (*freq is Weekly),
        is_progress(checkins@, *freq, today, r.streak as int, r.record as int),
        r.grid_text@ == grid_text(
            qualifying_set(checkins@, daily_target as int),
            today.num as int,
            DETAIL_DAYS as int,
        ),
{
    let (streak, record) = progress(checkins, freq, today);
    let shown = qualifying_days(checkins, daily_target);
    let grid_text = grid(&shown, today, DETAIL_DAYS);
    let weekly = match freq {
        Frequency::Weekly { .. } => true,
        Frequency::Daily { .. } => false,
    };
    HabitSummary { name, weekly, streak, record, grid_text }
}

/// Moving up undoes moving down.
pub proof fn lemma_prev_undoes_next(i: usize, len: usize)
    requires
        i < len,
    ensures
        prev_selection(next_selection(Some(i), len), len) == Some(i),
{
    if i + 1 < len {
        lemma_small_mod((i + 1) as nat, len as nat);
    } else {
        lemma_mod_self_0(len as int);
    }
}

/// Moving down undoes moving up.
pub proof fn lemma_next_undoes_prev(i: usize, len: usize)
    requires
        i < len,
    ensures
        next_selection(prev_selection(Some(i), len), len) == Some(i),
{
    if i == 0 {
        lemma_mod_self_0(len as int);
    } else {
        lemma_small_mod(i as nat, len as nat);
    }
}

/// A selection on an item of a non-empty list stays on an item of it.
pub proof fn lemma_selection_in_range(selected: Option<usize>, len: usize)
    requires
        len > 0,
        selected matches Some(i) ==> i < len,
    ensures
        next_selection(selected, len) matches Some(j) && j < len,
        prev_selection(selected, len) matches Some(j) && j < len,
{
    if let Some(i) = selected {
        lemma_mod_pos_bound((i + 1) as int, len as int);
    }
}

/// In the list, Down moves to the next habit and Up to the previous one:
/// from habit `i`, Down selects `i + 1` (the first after the last), and Up
/// from `i + 1` comes back to `i` (the last before the first).
pub proof fn lemma_arrows_move_through_list(i: usize, len: usize)
    requires
        i < len,
    ensures
        i + 1 < len ==> key_outcome(Screen::List, Some(i), Key::Down, len) == (KeyOutcome::Show {
            view: Screen::List,
            selected: Some((i + 1) as usize),
        }),
        i + 1 < len ==> key_outcome(Screen::List, Some((i + 1) as usize), Key::Up, len)
            == (KeyOutcome::Show { view: Screen::List, selected: Some(i) }),
        i + 1 == len ==> key_outcome(Screen::List, Some(i), Key::Down, len) == (KeyOutcome::Show {
            view: Screen::List,
            selected: Some(0usize),
        }),
        i == 0 ==> key_outcome(Screen::List, Some(i), Key::Up, len) == (KeyOutcome::Show {
            view: Screen::List,
            selected: Some((len - 1) as usize),
        }),
        key_outcome(Screen::List, None, Key::Down, len) == (KeyOutcome::Show {
            view: Screen::List,
            selected: Some(0usize),
        }),
{
    if i + 1 < len {
        lemma_small_mod((i + 1) as nat, len as nat);
    } else {
        lemma_mod_self_0(len as int);
    }
}

/// In the grid screen the arrows change nothing, and Enter in the list opens
/// the grid of the selected habit without moving the selection.
pub proof fn lemma_grid_screen_keys(selected: Option<usize>, len: usize)
    requires
        len > 0,
    ensures
        key_outcome(Screen::Detail, selected, Key::Down, len) == (KeyOutcome::Show {
            view: Screen::Detail,
            selected,
        }),
        key_outcome(Screen::Detail, selected, Key::Up, len) == (KeyOutcome::Show {
            view: Screen::Detail,
            selected,
        }),
        key_outcome(Screen::List, selected, Key::Enter, len) == (KeyOutcome::Show {
            view: Screen::Detail,
            selected,
        }),
{
}

} // verus!
