//! The command line and the terminal selector: the arguments, which mode
//! they start, and the two input screens of the selector (the process search
//! and the speed entry), driven key by key.

use vstd::prelude::*;

use crate::limiter::ProcessPair;
use crate::text::string_from_chars;
use crate::util::{parse_datarate, spec_parse_datarate, Datarate};

verus! {

/// The command-line arguments of the program.
#[derive(Debug, Clone, Copy, PartialEq, Eq, Structural)]
pub struct DecLimiterArgs {
    /// PID of the process to manage
    pub pid: Option<u32>,
    /// Download speed limit (e.g., "10mbps", "500kbps")
    pub download: Option<Datarate>,
    /// Upload speed limit (e.g., "10mbps", "500kbps")
    pub upload: Option<Datarate>,
    /// Garbage collection interval in seconds
    pub garbage_collect: u32,
    /// Open the interactive TUI process selector
    pub list: bool,
    /// Show the console window (hidden by default in GUI mode)
    pub console: bool,
}

/// What the program does with its arguments.
#[derive(Debug, Clone, Copy, PartialEq, Eq, Structural)]
pub enum StartupMode {
    /// The terminal selector picks a process and a download speed.
    List,
    /// The limiter runs on the PID given on the command line.
    Direct,
    /// The window of the network monitor opens.
    Gui,
}

/// The mode the arguments start: the selector where it is asked for, else
/// the limiter where a PID is given, else the window.
pub open spec fn mode_of(args: DecLimiterArgs) -> StartupMode {
    if args.list {
        StartupMode::List
    } else if args.pid is Some {
        StartupMode::Direct
    } else {
        StartupMode::Gui
    }
}

/// The mode the arguments start.
pub fn startup_mode(args: &DecLimiterArgs) -> (m: StartupMode)
    ensures
        m == mode_of(*args),
{
    if args.list {
        StartupMode::List
    } else if args.pid.is_some() {
        StartupMode::Direct
    } else {
        StartupMode::Gui
    }
}

/// The console window is hidden: in window mode, unless `--console` asks
/// to keep it.
pub fn hides_console(args: &DecLimiterArgs) -> (b: bool)
    ensures
        b == (!args.list && args.pid is None && !args.console),
{
    !args.list && args.pid.is_none() && !args.console
}

/// Nanoseconds in a second.
pub const NANOS_PER_SECOND: u64 = 1_000_000_000;

/// What the limiter runs in direct mode.
#[derive(Debug, Clone, Copy)]
pub struct DirectPlan {
    /// The process whose traffic is limited.
    pub pid: u32,
    /// How often stale flows are collected: every `-g` seconds, in
    /// nanoseconds.
    pub gc_period_nanos: u64,
    /// The age past which a collection removes a flow: `-g` seconds, in
    /// nanoseconds.
    pub flow_max_age_nanos: u64,
    /// The limits, where one is given in either direction: download, then
    /// upload.
    pub limit: Option<(Option<Datarate>, Option<Datarate>)>,
}

/// The tasks of direct mode: the flow table and its collection always, and
/// the limiter where a limit is given in either direction. The collection
/// runs every `-g` seconds and removes the flows not seen for more than
/// `-g` seconds.
pub fn direct_plan(args: &DecLimiterArgs) -> (p: DirectPlan)
    requires
        args.pid is Some,
    ensures
        p.pid == args.pid->0,
        p.gc_period_nanos == args.garbage_collect * NANOS_PER_SECOND,
        p.flow_max_age_nanos == args.garbage_collect * NANOS_PER_SECOND,
        p.limit == (if args.download is Some || args.upload is Some {
            Some((args.download, args.upload))
        } else {
            None
        }),
{
    let pid = match args.pid {
        Some(p) => p,
        None => 0,
    };
    let limit = if args.download.is_some() || args.upload.is_some() {
        Some((args.download, args.upload))
    } else {
        None
    };
    let every = args.garbage_collect as u64 * NANOS_PER_SECOND;
    DirectPlan { pid, gc_period_nanos: every, flow_max_age_nanos: every, limit }
}

/// The outcome of the selector: the chosen process with the download speed
/// entered after it, where a process was chosen. The speed is asked for
/// either way, so an error there is the outcome even without a process.
pub fn init_search<E>(found: Option<ProcessPair>, speed: Result<Datarate, E>) -> (r: Result<
    Option<(ProcessPair, Datarate)>,
    E,
>)
    ensures
        match speed {
            Err(e) => r == Err::<Option<(ProcessPair, Datarate)>, E>(e),
            Ok(v) => r == Ok::<Option<(ProcessPair, Datarate)>, E>(
                match found {
                    Some(p) => Some((p, v)),
                    None => None,
                },
            ),
        },
{
    match speed {
        Err(e) => Err(e),
        Ok(v) => Ok(
            match found {
                Some(p) => Some((p, v)),
                None => None,
            },
        ),
    }
}

// ---------------------------------------------------------------------------
// The input screens
// ---------------------------------------------------------------------------

/// A key pressed on one of the selector's screens.
#[derive(Debug, Clone, Copy, PartialEq, Eq, Structural)]
pub enum Key {
    Enter,
    Esc,
    Up,
    Down,
    Backspace,
    Char(char),
    Other,
}

/// `c` is an ASCII letter or digit.
pub open spec fn is_ascii_alnum(c: char) -> bool {
    ('0' <= c && c <= '9') || ('a' <= c && c <= 'z') || ('A' <= c && c <= 'Z')
}

/// What the speed entry does after a key.
#[derive(Debug, Clone, Copy, PartialEq, Eq, Structural)]
pub enum InputStep {
    /// The screen stays.
    Continue,
    /// The entry reads as this many bits per second.
    Done(Datarate),
    /// The user left the screen.
    Abort,
}

/// The speed entry screen: the text typed so far.
pub struct SpeedInput {
    input: Vec<char>,
}

impl View for SpeedInput {
    type V = Seq<char>;

    closed spec fn view(&self) -> Seq<char> {
        self.input@
    }
}

/// The text after `c` was typed: letters and digits are kept, and nothing
/// else.
pub open spec fn typed(text: Seq<char>, c: char) -> Seq<char> {
    if is_ascii_alnum(c) {
        text.push(c)
    } else {
        text
    }
}

/// The text after a backspace.
pub open spec fn erased(text: Seq<char>) -> Seq<char> {
    if text.len() > 0 {
        text.drop_last()
    } else {
        text
    }
}

/// `c` is a digit or a letter of the Latin alphabet, upper or lower case.
pub open spec fn latin_letter_or_digit(c: char) -> bool {
    ('0' <= c && c <= '9') || ('a' <= c && c <= 'z') || ('A' <= c && c <= 'Z')
}

/// The text after the characters `cs` were typed one after another.
pub open spec fn typed_all(text: Seq<char>, cs: Seq<char>) -> Seq<char>
    decreases cs.len(),
{
    if cs.len() == 0 {
        text
    } else {
        typed(typed_all(text, cs.drop_last()), cs.last())
    }
}

/// Typing a digit or a letter, upper or lower case, appends exactly that
/// character to the entry; any other character leaves the entry as it was.
pub proof fn lemma_typing_keeps_letters_and_digits(text: Seq<char>, c: char)
    ensures
        latin_letter_or_digit(c) ==> typed(text, c) == text.push(c),
        !latin_letter_or_digit(c) ==> typed(text, c) == text,
{
}

/// Typing a word of digits and letters, one character after another, adds
/// exactly that word to the entry, so that Enter then reads the text typed
/// (as `handle_key` states for Enter).
pub proof fn lemma_typing_a_word(text: Seq<char>, word: Seq<char>)
    requires
        forall|i: int| 0 <= i < word.len() ==> latin_letter_or_digit(#[trigger] word[i]),
    ensures
        typed_all(text, word) == text + word,
    decreases word.len(),
{
    if word.len() > 0 {
        let w = word.drop_last();
        assert forall|i: int| 0 <= i < w.len() implies latin_letter_or_digit(#[trigger] w[i]) by {
            assert(w[i] == word[i]);
        }
        lemma_typing_a_word(text, w);
        assert(latin_letter_or_digit(word[word.len() - 1]));
        lemma_typing_keeps_letters_and_digits(text + w, word.last());
        assert((text + w).push(word.last()) =~= text + word);
    }
}

impl SpeedInput {
    /// An empty entry.
    pub fn new() -> (s: SpeedInput)
        ensures
            s@ == Seq::<char>::empty(),
    {
        SpeedInput { input: Vec::new() }
    }

    /// The text typed so far.
    pub fn text(&self) -> (t: String)
        ensures
            t@ == self@,
    {
        string_from_chars(&self.input)
    }

    /// Takes one key: Enter confirms a text that reads as a datarate (and
    /// is ignored otherwise), Esc leaves, a letter or digit is typed,
    /// Backspace erases the last character, and other keys do nothing.
    pub fn handle_key(&mut self, key: Key) -> (step: InputStep)
        ensures
            match key {
                Key::Enter => final(self)@ == old(self)@ && step == match spec_parse_datarate(old(self)@) {
                    Some(v) => InputStep::Done(v as u64),
                    None => InputStep::Continue,
                },
                Key::Esc => final(self)@ == old(self)@ && step == InputStep::Abort,
                Key::Char(c) => final(self)@ == typed(old(self)@, c) && step == InputStep::Continue,
                Key::Backspace => final(self)@ == erased(old(self)@) && step == InputStep::Continue,
                _ => final(self)@ == old(self)@ && step == InputStep::Continue,
            },
            key matches Key::Char(c) ==> (latin_letter_or_digit(c) ==> final(self)@ == old(self)@.push(c)),
    {
        match key {
            Key::Enter => {
                let text = string_from_chars(&self.input);
                match parse_datarate(text.as_str()) {
                    Ok(v) => InputStep::Done(v),
                    Err(_) => InputStep::Continue,
                }
            },
            Key::Esc => InputStep::Abort,
            Key::Char(c) => {
                if ('0' <= c && c <= '9') || ('a' <= c && c <= 'z') || ('A' <= c && c <= 'Z') {
                    self.input.push(c);
                }
                InputStep::Continue
            },
            Key::Backspace => {
                if self.input.len() > 0 {
                    self.input.pop();
                }
                InputStep::Continue
            },
            _ => InputStep::Continue,
        }
    }
}

/// What the process search does after a key.
#[derive(Debug, Clone, Copy, PartialEq, Eq, Structural)]
pub enum SearchStep {
    /// The screen stays.
    Continue,
    /// The query changed: the list of processes is to be read again.
    Requery,
    /// The user chose the process at this place of the list.
    Select(usize),
    /// The user left the screen without a choice.
    Cancel,
}

/// The process search screen: the query typed so far and the line chosen
/// in the list of results.
pub struct ProcessSearch {
    query: Vec<char>,
    selected: Option<usize>,
}

/// The state of the search screen.
pub ghost struct SearchView {
    pub query: Seq<char>,
    pub selected: Option<usize>,
}

impl View for ProcessSearch {
    type V = SearchView;

    closed spec fn view(&self) -> SearchView {
        SearchView { query: self.query@, selected: self.selected }
    }
}

/// The line chosen after moving up: the one above, or the last line where
/// none was chosen (the list sets it to its real last line when drawn).
pub open spec fn moved_up(selected: Option<usize>) -> Option<usize> {
    match selected {
        Some(i) => Some(if i == 0 {
            0usize
        } else {
            (i - 1) as usize
        }),
        None => Some(usize::MAX),
    }
}

/// The line chosen after moving down: the one below, or the first where
/// none was chosen.
pub open spec fn moved_down(selected: Option<usize>) -> Option<usize> {
    match selected {
        Some(i) => Some(if i == usize::MAX {
            usize::MAX
        } else {
            (i + 1) as usize
        }),
        None => Some(0usize),
    }
}

/// The chosen line once a list of `len` lines is drawn: none in an empty
/// list, and the last line where the choice lies past the end.
pub open spec fn clamped(selected: Option<usize>, len: usize) -> Option<usize> {
    if len == 0 {
        None
    } else {
        match selected {
            Some(i) => if i >= len {
                Some((len - 1) as usize)
            } else {
                Some(i)
            },
            None => None,
        }
    }
}

impl ProcessSearch {
    /// An empty query with the first line chosen.
    pub fn new() -> (s: ProcessSearch)
        ensures
            s@ == (SearchView { query: Seq::empty(), selected: Some(0) }),
    {
        ProcessSearch { query: Vec::new(), selected: Some(0) }
    }

    /// The query typed so far.
    pub fn query(&self) -> (q: String)
        ensures
            q@ == self@.query,
    {
        string_from_chars(&self.query)
    }

    /// The line chosen.
    pub fn selected(&self) -> (s: Option<usize>)
        ensures
            s == self@.selected,
    {
        self.selected
    }

    /// Brings the chosen line into a list of `len` results, as drawing the
    /// list does.
    pub fn clamp(&mut self, len: usize)
        ensures
            final(self)@ == (SearchView { selected: clamped(old(self)@.selected, len), ..old(self)@ }),
    {
        if len == 0 {
            self.selected = None;
        } else {
            match self.selected {
                Some(i) => {
                    if i >= len {
                        self.selected = Some(len - 1);
                    }
                },
                None => {},
            }
        }
    }

    /// Takes one key, with `results` lines in the list: Up and Down move the
    /// chosen line, Enter chooses the line where it lies in the list, Esc
    /// leaves, and typing or erasing a character changes the query and
    /// chooses the first line again.
    pub fn handle_key(&mut self, key: Key, results: usize) -> (step: SearchStep)
        ensures
            match key {
                Key::Up => final(self)@ == (SearchView { selected: moved_up(old(self)@.selected), ..old(self)@ })
                    && step == SearchStep::Continue,
                Key::Down => final(self)@ == (SearchView {
                    selected: moved_down(old(self)@.selected),
                    ..old(self)@
                }) && step == SearchStep::Continue,
                Key::Enter => final(self)@ == old(self)@ && step == match old(self)@.selected {
                    Some(i) => if i < results {
                        SearchStep::Select(i)
                    } else {
                        SearchStep::Continue
                    },
                    None => SearchStep::Continue,
                },
                Key::Esc => final(self)@ == old(self)@ && step == SearchStep::Cancel,
                Key::Char(c) => final(self)@ == (SearchView {
                    query: old(self)@.query.push(c),
                    selected: Some(0usize),
                }) && step == SearchStep::Requery,
                Key::Backspace => final(self)@ == (SearchView {
                    query: erased(old(self)@.query),
                    selected: Some(0usize),
                }) && step == SearchStep::Requery,
                Key::Other => final(self)@ == old(self)@ && step == SearchStep::Continue,
            },
    {
        match key {
            Key::Up => {
                self.selected = Some(
                    match self.selected {
                        Some(i) => i.saturating_sub(1),
                        None => usize::MAX,
                    },
                );
                SearchStep::Continue
            },
            Key::Down => {
                self.selected = Some(
                    match self.selected {
                        Some(i) => i.saturating_add(1),
                        None => 0,
                    },
                );
                SearchStep::Continue
            },
            Key::Enter => match self.selected {
                Some(i) => if i < results {
                    SearchStep::Select(i)
                } else {
                    SearchStep::Continue
                },
                None => SearchStep::Continue,
            },
            Key::Esc => SearchStep::Cancel,
            Key::Char(c) => {
                self.query.push(c);
                self.selected = Some(0);
                SearchStep::Requery
            },
            Key::Backspace => {
                if self.query.len() > 0 {
                    self.query.pop();
                }
                self.selected = Some(0);
                SearchStep::Requery
            },
            Key::Other => SearchStep::Continue,
        }
    }
}

} // verus!
