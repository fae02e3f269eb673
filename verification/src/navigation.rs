//! The browsing state of the analyzer: the directory being shown and the
//! history of directories that "Back" returns to, with the decision that
//! each user action takes on them.

use vstd::prelude::*;

verus! {

/// The browsing state as plain values: the current directory's path and
/// the stack of earlier paths, most recent last.
pub struct NavState {
    pub current: Seq<char>,
    pub history: Seq<Seq<char>>,
}

/// What a path typed into the "Starting directory" box leads to.
#[derive(Clone, Copy, Debug, PartialEq, Eq, Structural)]
pub enum EnterOutcome {
    /// The path lists at least one entry and differs from the current
    /// directory: the browser moves there.
    Navigated,
    /// The path lists nothing and differs from the current directory: the
    /// input is marked as invalid and nothing else changes.
    Rejected,
    /// The path is the current directory: nothing happens.
    Unchanged,
}

/// The browsing state: the directory shown and the paths to go back to.
pub struct Navigator {
    pub current: String,
    pub history: Vec<String>,
}

impl View for Navigator {
    type V = NavState;

    open spec fn view(&self) -> NavState {
        NavState { current: self.current@, history: self.history@.map_values(|p: String| p@) }
    }
}

/// Opening entry `row` of the listing, whose path is `target` and whose own
/// listing has `entries` entries (itself included). Row 0 is the current
/// directory itself; a target that lists nothing but itself is not entered.
/// Returns the new state and whether the browser moved.
pub open spec fn spec_move_into(s: NavState, row: nat, target: Seq<char>, entries: nat) -> (NavState, bool) {
    if entries > 1 && row != 0 {
        (NavState { current: target, history: s.history.push(s.current) }, true)
    } else {
        (s, false)
    }
}

/// "Back": the most recent earlier path becomes current, if there is one.
/// Returns the new state and the path to show, if any.
pub open spec fn spec_back(s: NavState) -> (NavState, Option<Seq<char>>) {
    if s.history.len() > 0 {
        (NavState { current: s.history.last(), history: s.history.drop_last() }, Some(s.history.last()))
    } else {
        (s, None)
    }
}

/// Entering the path `input`, whose listing has `entries` entries.
pub open spec fn spec_enter(s: NavState, input: Seq<char>, entries: nat) -> (NavState, EnterOutcome) {
    if entries > 0 && input != s.current {
        (NavState { current: input, history: s.history.push(s.current) }, EnterOutcome::Navigated)
    } else if input != s.current {
        (s, EnterOutcome::Rejected)
    } else {
        (s, EnterOutcome::Unchanged)
    }
}

/// Choosing `chosen` in the "Load folder" dialog (empty when cancelled).
/// A chosen folder is shown and the current path is pushed on the history,
/// but the current path itself stays as it was; a cancelled dialog shows
/// the current directory again. Returns the new state and the path to show.
pub open spec fn spec_load_folder(s: NavState, chosen: Seq<char>) -> (NavState, Seq<char>) {
    if chosen.len() > 0 {
        (NavState { current: s.current, history: s.history.push(s.current) }, chosen)
    } else {
        (s, s.current)
    }
}

/// "Back" right after opening an entry returns to the directory the
/// browser was in, with the history it had.
pub proof fn lemma_back_undoes_move_into(s: NavState, row: nat, target: Seq<char>, entries: nat)
    requires
        spec_move_into(s, row, target, entries).1,
    ensures
        spec_back(spec_move_into(s, row, target, entries).0) == (s, Some(s.current)),
{
    let t = spec_move_into(s, row, target, entries).0;
    assert(t.history.drop_last() =~= s.history);
}

/// "Back" right after entering a path that the browser moved to returns
/// to the directory it was in, with the history it had.
pub proof fn lemma_back_undoes_enter(s: NavState, input: Seq<char>, entries: nat)
    requires
        spec_enter(s, input, entries).1 == EnterOutcome::Navigated,
    ensures
        spec_back(spec_enter(s, input, entries).0) == (s, Some(s.current)),
{
    let t = spec_enter(s, input, entries).0;
    assert(t.history.drop_last() =~= s.history);
}

/// "Back" right after loading a chosen folder shows the directory the
/// browser was in and restores the history it had.
pub proof fn lemma_back_undoes_load_folder(s: NavState, chosen: Seq<char>)
    requires
        chosen.len() > 0,
    ensures
        spec_back(spec_load_folder(s, chosen).0) == (s, Some(s.current)),
{
    let t = spec_load_folder(s, chosen).0;
    assert(t.history.drop_last() =~= s.history);
}

/// A refused step changes nothing: "Back" with no history, opening an
/// entry that is not entered, and a typed path that is not moved to all
/// leave the state as it was.
pub proof fn lemma_refused_steps_keep_state(s: NavState, row: nat, target: Seq<char>, entries: nat, input: Seq<char>)
    ensures
        s.history.len() == 0 ==> spec_back(s) == (s, None::<Seq<char>>),
        !spec_move_into(s, row, target, entries).1 ==> spec_move_into(s, row, target, entries).0 == s,
        spec_enter(s, input, entries).1 != EnterOutcome::Navigated ==> spec_enter(s, input, entries).0 == s,
{
}

/// Each step that the browser takes forward adds exactly one path to the
/// history, and "Back" removes exactly one.
pub proof fn lemma_history_depth(s: NavState, row: nat, target: Seq<char>, entries: nat, input: Seq<char>, chosen: Seq<char>)
    ensures
        spec_move_into(s, row, target, entries).0.history.len()
            == s.history.len() + (if spec_move_into(s, row, target, entries).1 { 1int } else { 0int }),
        spec_enter(s, input, entries).0.history.len()
            == s.history.len() + (if spec_enter(s, input, entries).1 == EnterOutcome::Navigated { 1int } else { 0int }),
        spec_load_folder(s, chosen).0.history.len() == s.history.len() + (if chosen.len() > 0 { 1int } else { 0int }),
        s.history.len() > 0 ==> spec_back(s).0.history.len() == s.history.len() - 1,
{
}

/// What each step does, in terms of its inputs: opening a row other than
/// row 0 whose listing holds more than itself moves there and pushes the
/// old path; a typed path moves there exactly when it lists something and
/// differs from the current path, is rejected when it lists nothing and
/// differs, and changes nothing when it is the current path; a chosen
/// folder is the one shown, an empty choice shows the current path, and
/// "Back" shows the most recent earlier path.
pub proof fn lemma_step_rules(s: NavState, row: nat, target: Seq<char>, entries: nat, input: Seq<char>, chosen: Seq<char>)
    ensures
        spec_move_into(s, row, target, entries).1 == (entries > 1 && row != 0),
        entries > 1 && row != 0 ==> spec_move_into(s, row, target, entries).0.current == target,
        entries > 1 && row != 0 ==> spec_move_into(s, row, target, entries).0.history == s.history.push(s.current),
        (spec_enter(s, input, entries).1 == EnterOutcome::Navigated) == (entries > 0 && input != s.current),
        (spec_enter(s, input, entries).1 == EnterOutcome::Rejected) == (entries == 0 && input != s.current),
        (spec_enter(s, input, entries).1 == EnterOutcome::Unchanged) == (input == s.current),
        entries > 0 && input != s.current ==> spec_enter(s, input, entries).0.current == input,
        entries > 0 && input != s.current ==> spec_enter(s, input, entries).0.history == s.history.push(s.current),
        chosen.len() > 0 ==> spec_load_folder(s, chosen).1 == chosen,
        chosen.len() == 0 ==> spec_load_folder(s, chosen).1 == s.current,
        spec_load_folder(s, chosen).0.current == s.current,
        s.history.len() > 0 ==> spec_back(s).1 == Some(s.history.last()),
        s.history.len() > 0 ==> spec_back(s).0.current == s.history.last(),
{
}

impl Navigator {
    /// A browser showing `start`, with nothing to go back to.
    pub fn new(start: String) -> (nav: Navigator)
        ensures
            nav@.current == start@,
            nav@.history == Seq::<Seq<char>>::empty(),
    {
        let nav = Navigator { current: start, history: Vec::new() };
        assert(nav@.history =~= Seq::<Seq<char>>::empty());
        nav
    }

    /// Opens entry `row` of the listing (see `spec_move_into`).
    pub fn move_into(&mut self, row: usize, target: String, entries: usize) -> (moved: bool)
        ensures
            (final(self)@, moved) == spec_move_into(old(self)@, row as nat, target@, entries as nat),
            moved == (entries > 1 && row != 0),
            moved ==> final(self)@.current == target@,
            moved ==> final(self)@.history == old(self)@.history.push(old(self)@.current),
            !moved ==> final(self)@.current == old(self)@.current,
            !moved ==> final(self)@.history == old(self)@.history,
    {
        if entries > 1 && row != 0 {
            let mut previous = target;
            std::mem::swap(&mut self.current, &mut previous);
            self.history.push(previous);
            assert(self@.history =~= old(self)@.history.push(old(self)@.current));
            true
        } else {
            false
        }
    }

    /// Goes back to the most recent earlier path (see `spec_back`).
    pub fn back(&mut self) -> (shown: Option<String>)
        ensures
            (final(self)@, match shown { Some(p) => Some(p@), None => None::<Seq<char>> })
                == spec_back(old(self)@),
            old(self)@.history.len() > 0 ==> shown is Some && shown->0@ == old(self)@.history.last(),
            old(self)@.history.len() > 0 ==> final(self)@.current == old(self)@.history.last(),
            old(self)@.history.len() > 0 ==> final(self)@.history == old(self)@.history.drop_last(),
            old(self)@.history.len() == 0 ==> shown is None,
            old(self)@.history.len() == 0 ==> final(self)@.current == old(self)@.current,
            old(self)@.history.len() == 0 ==> final(self)@.history == old(self)@.history,
    {
        match self.history.pop() {
            Some(previous) => {
                self.current = previous.clone();
                assert(self@.history =~= old(self)@.history.drop_last());
                Some(previous)
            },
            None => None,
        }
    }

    /// Enters a typed path (see `spec_enter`).
    pub fn enter(&mut self, input: String, entries: usize) -> (outcome: EnterOutcome)
        ensures
            (final(self)@, outcome) == spec_enter(old(self)@, input@, entries as nat),
            (outcome == EnterOutcome::Navigated) == (entries > 0 && input@ != old(self)@.current),
            (outcome == EnterOutcome::Rejected) == (entries == 0 && input@ != old(self)@.current),
            (outcome == EnterOutcome::Unchanged) == (input@ == old(self)@.current),
            outcome == EnterOutcome::Navigated ==> final(self)@.current == input@,
            outcome == EnterOutcome::Navigated ==> final(self)@.history == old(self)@.history.push(old(self)@.current),
            outcome != EnterOutcome::Navigated ==> final(self)@.current == old(self)@.current,
            outcome != EnterOutcome::Navigated ==> final(self)@.history == old(self)@.history,
    {
        let same = input.eq(&self.current);
        if entries > 0 && !same {
            let mut previous = input;
            std::mem::swap(&mut self.current, &mut previous);
            self.history.push(previous);
            assert(self@.history =~= old(self)@.history.push(old(self)@.current));
            EnterOutcome::Navigated
        } else if !same {
            EnterOutcome::Rejected
        } else {
            EnterOutcome::Unchanged
        }
    }

    /// Takes the folder chosen in the "Load folder" dialog (see
    /// `spec_load_folder`) and returns the path to show.
    pub fn load_folder(&mut self, chosen: String) -> (shown: String)
        ensures
            (final(self)@, shown@) == spec_load_folder(old(self)@, chosen@),
            chosen@.len() > 0 ==> shown@ == chosen@,
            chosen@.len() > 0 ==> final(self)@.history == old(self)@.history.push(old(self)@.current),
            chosen@.len() == 0 ==> shown@ == old(self)@.current,
            chosen@.len() == 0 ==> final(self)@.history == old(self)@.history,
            final(self)@.current == old(self)@.current,
    {
        if !chosen.as_str().is_empty() {
            self.history.push(self.current.clone());
            assert(self@.history =~= old(self)@.history.push(old(self)@.current));
            chosen
        } else {
            self.current.clone()
        }
    }
}

} // verus!
