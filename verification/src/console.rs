//! The console's editing state machine: modes, line editing, command
//! history, and the dispatch of parsed commands to the shared table. The
//! terminal itself (key decoding and rendering) is a collaborator that feeds
//! plain key values in and reads plain state back out.

use crate::command::{EndpointAction, HttpMethod};
use crate::server::ServerState;
use crate::util::{InternalError, InternalResult};
use vstd::prelude::*;

verus! {

/// Whether key presses navigate (Normal) or edit the command line (Insert).
#[derive(Debug, Default, Clone, Copy, PartialEq, Eq, Structural)]
pub enum InputMode {
    #[default]
    Normal,
    Insert,
}

/// One key press, reduced to what the console reacts to.
#[derive(Debug, Clone, Copy, PartialEq, Eq, Structural)]
pub enum KeyInput {
    Char(char),
    CtrlU,
    CtrlW,
    Esc,
    Enter,
    Backspace,
    Up,
    Down,
    Other,
}

/// What the caller must do after handing a key press to the console.
#[derive(Debug, Clone, Copy, PartialEq, Eq, Structural)]
pub enum KeyAction {
    NoAction,
    Submit,
}

/// The views of a history of command lines.
pub open spec fn char_views(s: Seq<Vec<char>>) -> Seq<Seq<char>> {
    s.map_values(|v: Vec<char>| v@)
}

/// `s` without its trailing spaces.
pub open spec fn trim_end_spaces(s: Seq<char>) -> Seq<char>
    decreases s.len(),
{
    if s.len() == 0 {
        s
    } else if s.last() == ' ' {
        trim_end_spaces(s.drop_last())
    } else {
        s
    }
}

/// The index of the last space in `s`, if any.
pub open spec fn rfind_space(s: Seq<char>) -> Option<int>
    decreases s.len(),
{
    if s.len() == 0 {
        None
    } else if s.last() == ' ' {
        Some(s.len() - 1)
    } else {
        rfind_space(s.drop_last())
    }
}

/// The command line after deleting its last word: everything after the last
/// space of the space-trimmed line goes, or the whole line when it has no
/// space.
pub open spec fn ctrl_w_result(s: Seq<char>) -> Seq<char> {
    match rfind_space(trim_end_spaces(s)) {
        Some(p) => s.subrange(0, p + 1),
        None => Seq::empty(),
    }
}

/// The history entry the index denotes: counting back from the most recent.
pub open spec fn hist_at(h: Seq<Vec<char>>, idx: Option<usize>) -> Seq<char> {
    match idx {
        None => Seq::empty(),
        Some(i) => if 1 <= i <= h.len() {
            h[h.len() - i]@
        } else {
            Seq::empty()
        },
    }
}

/// The history index after stepping backward (to an older entry).
pub open spec fn spec_backward(h_len: nat, idx: Option<usize>) -> Option<usize> {
    match idx {
        Some(i) => if i < h_len {
            Some((i + 1) as usize)
        } else {
            Some(i)
        },
        None => if h_len > 0 {
            Some(1usize)
        } else {
            None
        },
    }
}

/// The history index after stepping forward (to a newer entry, or back off
/// the history).
pub open spec fn spec_forward(idx: Option<usize>) -> Option<usize> {
    match idx {
        Some(i) => if i > 1 {
            Some((i - 1) as usize)
        } else {
            None
        },
        None => None,
    }
}

/// Copies a line of characters.
fn clone_chars(s: &Vec<char>) -> (v: Vec<char>)
    ensures
        v@ == s@,
{
    let mut v: Vec<char> = Vec::new();
    let mut i: usize = 0;
    while i < s.len()
        invariant
            i <= s@.len(),
            v@ == s@.subrange(0, i as int),
        decreases s@.len() - i,
    {
        v.push(s[i]);
        proof {
            assert(v@ =~= s@.subrange(0, i as int + 1));
        }
        i = i + 1;
    }
    proof {
        assert(v@ =~= s@);
    }
    v
}

proof fn lemma_rfind_from_end(t: Seq<char>, k: int)
    requires
        0 <= k < t.len(),
        t[k] == ' ',
        forall|j: int| k < j < t.len() ==> t[j] != ' ',
    ensures
        rfind_space(t) == Some(k),
    decreases t.len(),
{
    if k == t.len() - 1 {
    } else {
        assert(t.last() != ' ');
        assert(t.drop_last()[k] == t[k]);
        lemma_rfind_from_end(t.drop_last(), k);
    }
}

proof fn lemma_rfind_none(t: Seq<char>)
    requires
        forall|j: int| 0 <= j < t.len() ==> t[j] != ' ',
    ensures
        rfind_space(t) is None,
    decreases t.len(),
{
    if t.len() > 0 {
        lemma_rfind_none(t.drop_last());
    }
}

/// Deletes the last word of the line, as `ctrl_w_result` describes.
fn delete_last_word(input: &mut Vec<char>)
    ensures
        final(input)@ == ctrl_w_result(old(input)@),
{
    let ghost s = input@;
    let mut end: usize = input.len();
    proof {
        assert(s.subrange(0, end as int) =~= s);
    }
    while end > 0 && input[end - 1] == ' '
        invariant
            end <= s.len(),
            input@ == s,
            trim_end_spaces(s) == trim_end_spaces(s.subrange(0, end as int)),
        decreases end,
    {
        proof {
            assert(s.subrange(0, end as int).last() == s[end - 1]);
            assert(s.subrange(0, end as int).drop_last() =~= s.subrange(0, end as int - 1));
        }
        end = end - 1;
    }
    let ghost t = s.subrange(0, end as int);
    proof {
        if end == 0 {
            assert(t.len() == 0);
            assert(trim_end_spaces(s) == t);
        } else {
            assert(t.last() == s[end as int - 1]);
            assert(trim_end_spaces(t) == t);
        }
    }
    let mut p: usize = end;
    while p > 0 && input[p - 1] != ' '
        invariant
            p <= end <= s.len(),
            input@ == s,
            forall|k: int| p as int <= k < end as int ==> s[k] != ' ',
        decreases p,
    {
        p = p - 1;
    }
    if p == 0 {
        proof {
            assert(forall|j: int| 0 <= j < t.len() ==> t[j] == s[j]);
            lemma_rfind_none(t);
        }
        input.clear();
        proof {
            assert(final(input)@ =~= ctrl_w_result(s));
        }
    } else {
        proof {
            assert(p < end);
            assert(t[p as int - 1] == s[p as int - 1]);
            assert(forall|j: int| p as int - 1 < j < t.len() ==> t[j] == s[j] && t[j] != ' ');
            lemma_rfind_from_end(t, p as int - 1);
        }
        input.truncate(p);
        proof {
            assert(final(input)@ =~= ctrl_w_result(s));
        }
    }
}

/// The console's pure state: the line being edited, the submitted-line
/// history and the cursor into it, the input mode, and the exit flag.
#[derive(Debug)]
pub struct ConsoleState {
    pub input: Vec<char>,
    pub history: Vec<Vec<char>>,
    pub history_index: Option<usize>,
    pub mode: InputMode,
    pub exit: bool,
}

impl ConsoleState {
    /// The history cursor, when set, denotes an entry: 1 (most recent) up to
    /// the history's length (oldest).
    pub open spec fn wf(self) -> bool {
        match self.history_index {
            Some(i) => 1 <= i <= self.history@.len(),
            None => true,
        }
    }

    /// A fresh console: empty line, empty history, Normal mode.
    pub fn new() -> (s: Self)
        ensures
            s.wf(),
            s.input@ == Seq::<char>::empty(),
            s.history@ == Seq::<Vec<char>>::empty(),
            s.history_index is None,
            s.mode == InputMode::Normal,
            !s.exit,
    {
        ConsoleState {
            input: Vec::new(),
            history: Vec::new(),
            history_index: None,
            mode: InputMode::Normal,
            exit: false,
        }
    }

    /// Steps the history cursor to an older entry, staying on the oldest.
    fn history_backward(&mut self)
        requires
            old(self).wf(),
        ensures
            final(self).wf(),
            final(self).history_index == spec_backward(
                old(self).history@.len(),
                old(self).history_index,
            ),
            final(self).input == old(self).input,
            final(self).history == old(self).history,
            final(self).mode == old(self).mode,
            final(self).exit == old(self).exit,
    {
        let len = self.history.len();
        match self.history_index {
            Some(i) => {
                if i < len {
                    self.history_index = Some(i + 1);
                }
            },
            None => {
                if len > 0 {
                    self.history_index = Some(1);
                }
            },
        }
    }

    /// Steps the history cursor to a newer entry, or off the history.
    fn history_forward(&mut self)
        requires
            old(self).wf(),
        ensures
            final(self).wf(),
            final(self).history_index == spec_forward(old(self).history_index),
            final(self).input == old(self).input,
            final(self).history == old(self).history,
            final(self).mode == old(self).mode,
            final(self).exit == old(self).exit,
    {
        match self.history_index {
            Some(i) => {
                if i > 1 {
                    self.history_index = Some(i - 1);
                } else {
                    self.history_index = None;
                }
            },
            None => {},
        }
    }

    /// The history entry under the cursor, or the empty line.
    fn current_history(&self) -> (line: Vec<char>)
        requires
            self.wf(),
        ensures
            line@ == hist_at(self.history@, self.history_index),
    {
        match self.history_index {
            None => Vec::new(),
            Some(i) => {
                let pos = self.history.len() - i;
                clone_chars(&self.history[pos])
            },
        }
    }

    /// Records the edited line in the history and clears it for the next
    /// command; returns the submitted line.
    pub fn take_submitted(&mut self) -> (line: Vec<char>)
        requires
            old(self).wf(),
        ensures
            final(self).wf(),
            line@ == old(self).input@,
            final(self).input@ == Seq::<char>::empty(),
            char_views(final(self).history@) == char_views(old(self).history@).push(
                old(self).input@,
            ),
            final(self).history_index is None,
            final(self).mode == old(self).mode,
            final(self).exit == old(self).exit,
    {
        let line = clone_chars(&self.input);
        let stored = clone_chars(&self.input);
        self.history.push(stored);
        self.input = Vec::new();
        self.history_index = None;
        proof {
            assert(char_views(final(self).history@) =~= char_views(old(self).history@).push(
                old(self).input@,
            ));
        }
        line
    }

    /// Reacts to one key press: in Normal mode `q` asks to quit and `i`
    /// enters Insert mode; in Insert mode keys edit the line, move through
    /// the history, or submit it. Returns whether the line was submitted.
    pub fn handle_key(&mut self, key: KeyInput) -> (r: KeyAction)
        requires
            old(self).wf(),
        ensures
            final(self).wf(),
            final(self).history == old(self).history,
            r == KeyAction::Submit <==> (old(self).mode == InputMode::Insert && key
                == KeyInput::Enter),
            match old(self).mode {
                InputMode::Normal => {
                    &&& final(self).input == old(self).input
                    &&& final(self).history_index == old(self).history_index
                    &&& final(self).exit == (old(self).exit || key == KeyInput::Char('q'))
                    &&& final(self).mode == (if key == KeyInput::Char('i') {
                        InputMode::Insert
                    } else {
                        InputMode::Normal
                    })
                },
                InputMode::Insert => {
                    &&& final(self).exit == old(self).exit
                    &&& final(self).mode == (if key == KeyInput::Esc {
                        InputMode::Normal
                    } else {
                        InputMode::Insert
                    })
                    &&& match key {
                        KeyInput::Char(c) => final(self).input@ == old(self).input@.push(c)
                            && final(self).history_index == old(self).history_index,
                        KeyInput::CtrlU => final(self).input@ == Seq::<char>::empty()
                            && final(self).history_index == old(self).history_index,
                        KeyInput::CtrlW => final(self).input@ == ctrl_w_result(old(self).input@)
                            && final(self).history_index == old(self).history_index,
                        KeyInput::Backspace => final(self).input@ == (if old(self).input@.len()
                            > 0 {
                            old(self).input@.drop_last()
                        } else {
                            old(self).input@
                        }) && final(self).history_index == old(self).history_index,
                        KeyInput::Up => final(self).history_index == spec_backward(
                            old(self).history@.len(),
                            old(self).history_index,
                        ) && final(self).input@ == hist_at(
                            old(self).history@,
                            final(self).history_index,
                        ),
                        KeyInput::Down => final(self).history_index == spec_forward(
                            old(self).history_index,
                        ) && final(self).input@ == hist_at(
                            old(self).history@,
                            final(self).history_index,
                        ),
                        _ => final(self).input == old(self).input && final(self).history_index
                            == old(self).history_index,
                    }
                },
            },
    {
        let mode = self.mode;
        match mode {
            InputMode::Normal => {
                match key {
                    KeyInput::Char(c) => {
                        if c == 'q' {
                            self.exit = true;
                        } else if c == 'i' {
                            self.mode = InputMode::Insert;
                        }
                    },
                    _ => {},
                }
                KeyAction::NoAction
            },
            InputMode::Insert => {
                match key {
                    KeyInput::CtrlU => {
                        self.input.clear();
                        KeyAction::NoAction
                    },
                    KeyInput::CtrlW => {
                        delete_last_word(&mut self.input);
                        KeyAction::NoAction
                    },
                    KeyInput::Esc => {
                        self.mode = InputMode::Normal;
                        KeyAction::NoAction
                    },
                    KeyInput::Enter => KeyAction::Submit,
                    KeyInput::Char(c) => {
                        self.input.push(c);
                        KeyAction::NoAction
                    },
                    KeyInput::Backspace => {
                        let _ = self.input.pop();
                        KeyAction::NoAction
                    },
                    KeyInput::Up => {
                        self.history_backward();
                        let line = self.current_history();
                        self.input = line;
                        KeyAction::NoAction
                    },
                    KeyInput::Down => {
                        self.history_forward();
                        let line = self.current_history();
                        self.input = line;
                        KeyAction::NoAction
                    },
                    _ => KeyAction::NoAction,
                }
            },
        }
    }
}

/// What an executed endpoint command reports back for logging.
#[derive(Debug)]
pub enum ActionOutcome {
    Added { updated: bool },
    Deleted,
    Listed(Vec<(HttpMethod, Vec<(Vec<u8>, Vec<u8>)>)>),
}

/// Carries a parsed endpoint command to the shared table: add registers or
/// updates, delete removes or reports the missing path, list enumerates.
pub fn run_action(state: &ServerState, action: EndpointAction) -> (r: InternalResult<ActionOutcome>)
    requires
        state.wf(),
    ensures
        match action {
            EndpointAction::Add { method, path, response } => match r {
                Ok(o) => o is Added,
                Err(_) => false,
            },
            EndpointAction::Delete { method, path } => match r {
                Ok(o) => o is Deleted,
                Err(e) => match e {
                    InternalError::EndpointNotFound(p) => p@ == path@,
                    _ => false,
                },
            },
            EndpointAction::List { method } => match r {
                Ok(o) => match o {
                    ActionOutcome::Listed(groups) => (forall|i: int, j: int|
                        0 <= i < j < groups@.len() ==> crate::command::method_rank(
                            #[trigger] groups@[i].0,
                        ) < crate::command::method_rank(#[trigger] groups@[j].0)) && (match method {
                        Some(f) => forall|i: int|
                            0 <= i < groups@.len() ==> (#[trigger] groups@[i].0) == f,
                        None => true,
                    }),
                    _ => false,
                },
                Err(_) => false,
            },
        },
{
    match action {
        EndpointAction::Add { method, path, response } => {
            match state.add_endpoint(method, path.as_slice(), response) {
                Ok(updated) => Ok(ActionOutcome::Added { updated }),
                Err(e) => Err(e),
            }
        },
        EndpointAction::Delete { method, path } => {
            match state.delete_endpoint(method, path.as_slice()) {
                Ok(_) => Ok(ActionOutcome::Deleted),
                Err(e) => Err(e),
            }
        },
        EndpointAction::List { method } => {
            let filter = match &method {
                Some(m) => Some(m),
                None => None,
            };
            match state.list_endpoints(filter) {
                Ok(listing) => Ok(ActionOutcome::Listed(listing)),
                Err(e) => Err(e),
            }
        },
    }
}

} // verus!
