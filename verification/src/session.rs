//! The decisions of the interactive picker.
//!
//! The picker shows the list of commands; the arrow keys (or `j`/`k`) move the
//! selection, wrapping at both ends, `q` or `Esc` quits, `Enter` picks the
//! selected command. A command without placeholders is run at once; otherwise
//! each placeholder is asked for in turn, by a list of its choices or by a
//! line of text, and its value replaces every occurrence of the placeholder in
//! the command. `Esc` abandons the prompt. When the last placeholder has its
//! value, the filled command is run.
//!
//! `Session::step` is the decision taken on one key; drawing the screen and
//! reading keys are left to the caller.

use vstd::prelude::*;
use crate::placeholder::{
    lemma_placeholder_count,
    Placeholder, PlaceholderView, extract_placeholders, placeholder_views, string_views,
    template_placeholders,
};
use crate::store::{Command, CommandView, command_views};
use crate::text::{pop_char, push_char, replace, replace_all, trim, trimmed, lemma_trimmed_idempotent};

verus! {

/// A key press, as far as the picker tells keys apart.
#[derive(Clone, Copy, Debug, PartialEq, Eq, Structural)]
pub enum Key {
    Char(char),
    Up,
    Down,
    Enter,
    Esc,
    Backspace,
    Other,
}

/// Whether `key` moves a selection down: the down arrow or `j`.
pub open spec fn is_down(key: Key) -> bool {
    key == Key::Down || key == Key::Char('j')
}

/// Whether `key` moves a selection up: the up arrow or `k`.
pub open spec fn is_up(key: Key) -> bool {
    key == Key::Up || key == Key::Char('k')
}

/// Filling in the placeholders of a picked command.
pub struct Prompt {
    /// The command, with the placeholders answered so far replaced.
    pub command_template: String,
    /// The placeholders of the picked command, in order.
    pub placeholders: Vec<Placeholder>,
    /// The index of the placeholder being asked for.
    pub current_step: usize,
    /// The text typed for a placeholder without choices.
    pub text_input: String,
    /// The highlighted entry of the choice list.
    pub option_selected: Option<usize>,
}

/// What the picker shows.
pub enum AppState {
    Browsing,
    Prompting(Prompt),
}

/// The picker's state: the selection in the command list and the screen.
pub struct Session {
    pub selected: Option<usize>,
    pub state: AppState,
}

/// What a key press leads to: the picker goes on, or it ends, with the
/// command to run or with none.
#[derive(Debug, PartialEq, Eq)]
pub enum Outcome {
    Pending,
    Done(Option<String>),
}

pub struct PromptView {
    pub template: Seq<char>,
    pub placeholders: Seq<PlaceholderView>,
    pub step: usize,
    pub text: Seq<char>,
    pub option_selected: Option<usize>,
}

pub enum AppStateView {
    Browsing,
    Prompting(PromptView),
}

pub struct SessionView {
    pub selected: Option<usize>,
    pub state: AppStateView,
}

pub enum OutcomeView {
    Pending,
    Done(Option<Seq<char>>),
}

impl View for Prompt {
    type V = PromptView;

    open spec fn view(&self) -> PromptView {
        PromptView {
            template: self.command_template@,
            placeholders: placeholder_views(self.placeholders@),
            step: self.current_step,
            text: self.text_input@,
            option_selected: self.option_selected,
        }
    }
}

impl View for Session {
    type V = SessionView;

    open spec fn view(&self) -> SessionView {
        SessionView {
            selected: self.selected,
            state: match self.state {
                AppState::Browsing => AppStateView::Browsing,
                AppState::Prompting(p) => AppStateView::Prompting(p@),
            },
        }
    }
}

impl View for Outcome {
    type V = OutcomeView;

    open spec fn view(&self) -> OutcomeView {
        match self {
            Outcome::Pending => OutcomeView::Pending,
            Outcome::Done(Some(c)) => OutcomeView::Done(Some(c@)),
            Outcome::Done(None) => OutcomeView::Done(None),
        }
    }
}

/// The selection after moving down a list of `n` entries: the next entry,
/// the first after the last, the first when nothing was selected.
pub open spec fn select_next(selected: Option<usize>, n: int) -> Option<usize> {
    match selected {
        Some(i) => if i >= n - 1 { Some(0) } else { Some((i + 1) as usize) },
        None => Some(0),
    }
}

/// The selection after moving up a list of `n` entries: the previous entry,
/// the last before the first, the first when nothing was selected.
pub open spec fn select_previous(selected: Option<usize>, n: int) -> Option<usize> {
    match selected {
        Some(i) => if i == 0 { Some((n - 1) as usize) } else { Some((i - 1) as usize) },
        None => Some(0),
    }
}

/// The number of entries in the choice list of `p`: its choices, and a first
/// entry for leaving an optional value empty.
pub open spec fn choice_count(p: PlaceholderView) -> int {
    match p.options {
        Some(opts) => if p.required { opts.len() as int } else { opts.len() as int + 1 },
        None => 0,
    }
}

/// The value picked from the choice list of `p` with entry `selected`
/// highlighted.
pub open spec fn chosen_value(p: PlaceholderView, selected: Option<usize>) -> Seq<char> {
    let opts = p.options->0;
    match selected {
        Some(i) => if !p.required {
            if i == 0 {
                seq![]
            } else {
                opts[i - 1]
            }
        } else {
            opts[i as int]
        },
        None => seq![],
    }
}

/// The prompt after the current placeholder was answered with `value`, and
/// what follows: the filled command once every placeholder has its value.
pub open spec fn answer(selected: Option<usize>, p: PromptView, value: Seq<char>) -> (SessionView, OutcomeView) {
    let cur = p.placeholders[p.step as int];
    let template = replace_all(p.template, cur.raw, value);
    let next = PromptView {
        template,
        placeholders: p.placeholders,
        step: (p.step + 1) as usize,
        text: seq![],
        option_selected: Some(0),
    };
    let s = SessionView { selected, state: AppStateView::Prompting(next) };
    if p.step + 1 >= p.placeholders.len() {
        (s, OutcomeView::Done(Some(template)))
    } else {
        (s, OutcomeView::Pending)
    }
}

/// The decision on `key` while the command list is shown.
pub open spec fn browse(selected: Option<usize>, commands: Seq<CommandView>, key: Key) -> (SessionView, OutcomeView) {
    let same = SessionView { selected, state: AppStateView::Browsing };
    if key == Key::Char('q') || key == Key::Esc {
        (same, OutcomeView::Done(None))
    } else if is_down(key) {
        (SessionView { selected: select_next(selected, commands.len() as int), state: AppStateView::Browsing }, OutcomeView::Pending)
    } else if is_up(key) {
        (SessionView { selected: select_previous(selected, commands.len() as int), state: AppStateView::Browsing }, OutcomeView::Pending)
    } else if key == Key::Enter {
        match selected {
            Some(i) => {
                let command = commands[i as int].command;
                let placeholders = template_placeholders(command);
                if placeholders.len() == 0 {
                    (same, OutcomeView::Done(Some(command)))
                } else {
                    (SessionView {
                        selected,
                        state: AppStateView::Prompting(PromptView {
                            template: command,
                            placeholders,
                            step: 0,
                            text: seq![],
                            option_selected: Some(0),
                        }),
                    }, OutcomeView::Pending)
                }
            },
            None => (same, OutcomeView::Pending),
        }
    } else {
        (same, OutcomeView::Pending)
    }
}

/// The decision on `key` while the placeholder `p.step` is asked for.
pub open spec fn ask(selected: Option<usize>, p: PromptView, key: Key) -> (SessionView, OutcomeView) {
    let cur = p.placeholders[p.step as int];
    let same = SessionView { selected, state: AppStateView::Prompting(p) };
    let with = |q: PromptView| SessionView { selected, state: AppStateView::Prompting(q) };
    if key == Key::Esc {
        (SessionView { selected, state: AppStateView::Browsing }, OutcomeView::Pending)
    } else if cur.options is Some {
        if is_down(key) {
            (with(PromptView { option_selected: select_next(p.option_selected, choice_count(cur)), ..p }), OutcomeView::Pending)
        } else if is_up(key) {
            (with(PromptView { option_selected: select_previous(p.option_selected, choice_count(cur)), ..p }), OutcomeView::Pending)
        } else if key == Key::Enter {
            answer(selected, p, chosen_value(cur, p.option_selected))
        } else {
            (same, OutcomeView::Pending)
        }
    } else {
        match key {
            Key::Char(c) => (with(PromptView { text: p.text.push(c), ..p }), OutcomeView::Pending),
            Key::Backspace => (with(PromptView { text: if p.text.len() > 0 { p.text.drop_last() } else { p.text }, ..p }), OutcomeView::Pending),
            Key::Enter => if cur.required && trimmed(p.text).len() == 0 {
                (same, OutcomeView::Pending)
            } else {
                answer(selected, p, trimmed(p.text))
            },
            _ => (same, OutcomeView::Pending),
        }
    }
}

/// The decision on `key` in state `s`, with `commands` listed.
pub open spec fn next(s: SessionView, commands: Seq<CommandView>, key: Key) -> (SessionView, OutcomeView) {
    match s.state {
        AppStateView::Browsing => browse(s.selected, commands, key),
        AppStateView::Prompting(p) => ask(s.selected, p, key),
    }
}

/// Whether the picker can take `key` in state `s`: every index it reads is
/// within its list.
pub open spec fn can_take(s: SessionView, commands: Seq<CommandView>, key: Key) -> bool {
    match s.state {
        AppStateView::Browsing => {
            &&& is_down(key) && s.selected is Some ==> commands.len() >= 1
            &&& is_up(key) && s.selected == Some(0usize) ==> commands.len() >= 1
            &&& key == Key::Enter && s.selected is Some ==> s.selected->0 < commands.len()
        },
        AppStateView::Prompting(p) => {
            &&& p.step < p.placeholders.len()
            &&& key != Key::Esc && p.placeholders[p.step as int].options is Some ==> {
                let n = choice_count(p.placeholders[p.step as int]);
                &&& p.placeholders[p.step as int].options->0.len() < usize::MAX
                &&& is_down(key) && p.option_selected is Some ==> n >= 1
                &&& is_up(key) && p.option_selected == Some(0usize) ==> n >= 1
                &&& key == Key::Enter && p.option_selected is Some ==> p.option_selected->0 < n
            }
        },
    }
}

/// The state that holds between key presses in normal use: the list is not
/// empty (and its length fits a `usize`), its selection lies within it, and a
/// prompt asks for an existing placeholder.
pub open spec fn well_formed(s: SessionView, commands: Seq<CommandView>) -> bool {
    &&& 1 <= commands.len() <= usize::MAX
    &&& s.selected matches Some(i) ==> i < commands.len()
    &&& s.state matches AppStateView::Prompting(p) ==> {
        &&& p.step < p.placeholders.len()
        &&& lists_answerable(p.placeholders)
        &&& p.option_selected matches Some(i) && (p.placeholders[p.step as int].options is Some ==> i
            < choice_count(p.placeholders[p.step as int]))
    }
}

/// Whether every list of choices among `ps` can be answered: a required list
/// offers at least one choice, and no list is too long to count with its
/// entry for leaving the value empty.
pub open spec fn lists_answerable(ps: Seq<PlaceholderView>) -> bool {
    forall|k: int|
        0 <= k < ps.len() ==> ((#[trigger] ps[k]).options matches Some(os) ==> os.len() < usize::MAX
            && (ps[k].required ==> os.len() > 0))
}

/// Whether every list of choices in the listed commands can be answered.
pub open spec fn commands_answerable(commands: Seq<CommandView>) -> bool {
    forall|i: int|
        0 <= i < commands.len() ==> lists_answerable(template_placeholders(#[trigger] commands[i].command))
}

fn is_down_key(key: Key) -> (r: bool)
    ensures
        r == is_down(key),
{
    match key {
        Key::Down => true,
        Key::Char(c) => c == 'j',
        _ => false,
    }
}

fn is_up_key(key: Key) -> (r: bool)
    ensures
        r == is_up(key),
{
    match key {
        Key::Up => true,
        Key::Char(c) => c == 'k',
        _ => false,
    }
}

fn next_index(selected: Option<usize>, n: usize) -> (r: Option<usize>)
    requires
        selected is Some ==> n >= 1,
    ensures
        r == select_next(selected, n as int),
{
    match selected {
        Some(i) => if i >= n - 1 { Some(0) } else { Some(i + 1) },
        None => Some(0),
    }
}

fn previous_index(selected: Option<usize>, n: usize) -> (r: Option<usize>)
    requires
        selected == Some(0usize) ==> n >= 1,
    ensures
        r == select_previous(selected, n as int),
{
    match selected {
        Some(i) => if i == 0 { Some(n - 1) } else { Some(i - 1) },
        None => Some(0),
    }
}

impl Prompt {
    /// The number of entries in the choice list of the current placeholder.
    fn choices_len(&self) -> (n: usize)
        requires
            self.current_step < self.placeholders.len(),
            self.placeholders@[self.current_step as int].options is Some,
            self@.placeholders[self.current_step as int].options->0.len() < usize::MAX,
        ensures
            n == choice_count(self@.placeholders[self.current_step as int]),
    {
        let cur = &self.placeholders[self.current_step];
        proof {
            assert(self@.placeholders[self.current_step as int] == cur@);
        }
        match &cur.options {
            Some(opts) => if cur.required { opts.len() } else { opts.len() + 1 },
            None => 0,
        }
    }
}

impl Session {
    /// The picker as it starts: the first command selected, the list shown.
    pub fn new() -> (s: Session)
        ensures
            s@ == (SessionView { selected: Some(0usize), state: AppStateView::Browsing }),
    {
        Session { selected: Some(0), state: AppState::Browsing }
    }

    /// Whether the picker can take `key` now.
    pub fn accepts(&self, commands: &[Command], key: Key) -> (r: bool)
        ensures
            r == can_take(self@, command_views(commands@), key),
    {
        let n = commands.len();
        match &self.state {
            AppState::Browsing => {
                (!(is_down_key(key) && self.selected.is_some()) || n >= 1) && (!(is_up_key(key)
                    && self.selected == Some(0usize)) || n >= 1) && (!(key == Key::Enter
                    && self.selected.is_some()) || self.selected.unwrap() < n)
            },
            AppState::Prompting(p) => {
                if p.current_step >= p.placeholders.len() {
                    return false;
                }
                proof {
                    assert(p@.placeholders[p.current_step as int] == p.placeholders@[p.current_step as int]@);
                }
                if key == Key::Esc || p.placeholders[p.current_step].options.is_none() {
                    return true;
                }
                let count = p.placeholders[p.current_step].options.as_ref().unwrap().len();
                proof {
                    assert(string_views(p.placeholders@[p.current_step as int].options->0@).len() == count);
                }
                if count == usize::MAX {
                    return false;
                }
                let c = p.choices_len();
                (!(is_down_key(key) && p.option_selected.is_some()) || c >= 1) && (!(is_up_key(key)
                    && p.option_selected == Some(0usize)) || c >= 1) && (!(key == Key::Enter
                    && p.option_selected.is_some()) || p.option_selected.unwrap() < c)
            },
        }
    }

    /// Takes the decision on `key`, with `commands` listed.
    pub fn step(self, commands: &[Command], key: Key) -> (r: (Session, Outcome))
        requires
            can_take(self@, command_views(commands@), key),
        ensures
            (r.0@, r.1@) == next(self@, command_views(commands@), key),
    {
        let Session { selected, state } = self;
        match state {
            AppState::Browsing => Self::browse_step(selected, commands, key),
            AppState::Prompting(p) => Self::ask_step(selected, p, key),
        }
    }

    fn browse_step(selected: Option<usize>, commands: &[Command], key: Key) -> (r: (Session, Outcome))
        requires
            can_take(SessionView { selected, state: AppStateView::Browsing }, command_views(commands@), key),
        ensures
            (r.0@, r.1@) == browse(selected, command_views(commands@), key),
    {
        let ghost cv = command_views(commands@);
        let n = commands.len();
        if key == Key::Char('q') || key == Key::Esc {
            (Session { selected, state: AppState::Browsing }, Outcome::Done(None))
        } else if is_down_key(key) {
            (Session { selected: next_index(selected, n), state: AppState::Browsing }, Outcome::Pending)
        } else if is_up_key(key) {
            (Session { selected: previous_index(selected, n), state: AppState::Browsing }, Outcome::Pending)
        } else if key == Key::Enter {
            match selected {
                Some(i) => {
                    let cmd = &commands[i];
                    proof {
                        assert(cv[i as int] == cmd@);
                    }
                    let placeholders = extract_placeholders(cmd.command.as_str());
                    if placeholders.len() == 0 {
                        (Session { selected, state: AppState::Browsing }, Outcome::Done(Some(cmd.command.clone())))
                    } else {
                        let p = Prompt {
                            command_template: cmd.command.clone(),
                            placeholders,
                            current_step: 0,
                            text_input: String::new(),
                            option_selected: Some(0),
                        };
                        (Session { selected, state: AppState::Prompting(p) }, Outcome::Pending)
                    }
                },
                None => (Session { selected, state: AppState::Browsing }, Outcome::Pending),
            }
        } else {
            (Session { selected, state: AppState::Browsing }, Outcome::Pending)
        }
    }

    fn ask_step(selected: Option<usize>, p: Prompt, key: Key) -> (r: (Session, Outcome))
        requires
            can_take(SessionView { selected, state: AppStateView::Prompting(p@) }, seq![], key),
        ensures
            (r.0@, r.1@) == ask(selected, p@, key),
    {
        proof {
            assert(p@.placeholders[p.current_step as int] == p.placeholders@[p.current_step as int]@);
        }
        if key == Key::Esc {
            return (Session { selected, state: AppState::Browsing }, Outcome::Pending);
        }
        if p.placeholders[p.current_step].options.is_some() {
            if is_down_key(key) {
                let n = p.choices_len();
                let option_selected = next_index(p.option_selected, n);
                (Session { selected, state: AppState::Prompting(Prompt { option_selected, ..p }) }, Outcome::Pending)
            } else if is_up_key(key) {
                let n = p.choices_len();
                let option_selected = previous_index(p.option_selected, n);
                (Session { selected, state: AppState::Prompting(Prompt { option_selected, ..p }) }, Outcome::Pending)
            } else if key == Key::Enter {
                let value = {
                    let cur = &p.placeholders[p.current_step];
                    let opts = cur.options.as_ref().unwrap();
                    proof {
                        assert(string_views(opts@) == cur@.options->0);
                    }
                    match p.option_selected {
                        Some(i) => if !cur.required {
                            if i == 0 {
                                String::new()
                            } else {
                                proof {
                                    assert(string_views(opts@)[i - 1] == opts@[i - 1]@);
                                }
                                opts[i - 1].clone()
                            }
                        } else {
                            proof {
                                assert(string_views(opts@)[i as int] == opts@[i as int]@);
                            }
                            opts[i].clone()
                        },
                        None => String::new(),
                    }
                };
                Self::answer_step(selected, p, value.as_str())
            } else {
                (Session { selected, state: AppState::Prompting(p) }, Outcome::Pending)
            }
        } else {
            match key {
                Key::Char(c) => {
                    let mut p = p;
                    push_char(&mut p.text_input, c);
                    (Session { selected, state: AppState::Prompting(p) }, Outcome::Pending)
                },
                Key::Backspace => {
                    let mut p = p;
                    let _ = pop_char(&mut p.text_input);
                    (Session { selected, state: AppState::Prompting(p) }, Outcome::Pending)
                },
                Key::Enter => {
                    let value = String::from_str(trim(p.text_input.as_str()));
                    if p.placeholders[p.current_step].required && value.as_str().unicode_len() == 0 {
                        (Session { selected, state: AppState::Prompting(p) }, Outcome::Pending)
                    } else {
                        Self::answer_step(selected, p, value.as_str())
                    }
                },
                _ => (Session { selected, state: AppState::Prompting(p) }, Outcome::Pending),
            }
        }
    }

    fn answer_step(selected: Option<usize>, p: Prompt, value: &str) -> (r: (Session, Outcome))
        requires
            p.current_step < p.placeholders.len(),
        ensures
            (r.0@, r.1@) == answer(selected, p@, value@),
    {
        proof {
            assert(p@.placeholders[p.current_step as int] == p.placeholders@[p.current_step as int]@);
        }
        let template = replace(p.command_template.as_str(), p.placeholders[p.current_step].raw.as_str(), value);
        let step = p.current_step + 1;
        let done = step >= p.placeholders.len();
        let outcome = if done { Outcome::Done(Some(template.clone())) } else { Outcome::Pending };
        let next = Prompt {
            command_template: template,
            placeholders: p.placeholders,
            current_step: step,
            text_input: String::new(),
            option_selected: Some(0),
        };
        (Session { selected, state: AppState::Prompting(next) }, outcome)
    }
}


/// In the command list, moving down and then up comes back to the same
/// state, wrapping around at the end of the list.
pub proof fn law_list_down_then_up(s: SessionView, commands: Seq<CommandView>, down: Key, up: Key)
    requires
        well_formed(s, commands),
        s.state is Browsing,
        s.selected is Some,
        is_down(down),
        is_up(up),
    ensures
        next(next(s, commands, down).0, commands, up) == (s, OutcomeView::Pending),
{
}

/// In the command list, moving up and then down comes back to the same
/// state, wrapping around at the start of the list.
pub proof fn law_list_up_then_down(s: SessionView, commands: Seq<CommandView>, up: Key, down: Key)
    requires
        well_formed(s, commands),
        s.state is Browsing,
        s.selected is Some,
        is_up(up),
        is_down(down),
    ensures
        next(next(s, commands, up).0, commands, down) == (s, OutcomeView::Pending),
{
}

/// In a list of choices, moving down and then up comes back to the same
/// state.
pub proof fn law_choices_down_then_up(s: SessionView, commands: Seq<CommandView>, down: Key, up: Key)
    requires
        s.state matches AppStateView::Prompting(p) && {
            &&& p.step < p.placeholders.len()
            &&& p.placeholders[p.step as int].options is Some
            &&& p.placeholders[p.step as int].options->0.len() < usize::MAX
            &&& p.option_selected matches Some(i) && i < choice_count(p.placeholders[p.step as int])
        },
        is_down(down),
        is_up(up),
    ensures
        next(next(s, commands, down).0, commands, up) == (s, OutcomeView::Pending),
{
}

/// In a list of choices, moving up and then down comes back to the same
/// state.
pub proof fn law_choices_up_then_down(s: SessionView, commands: Seq<CommandView>, up: Key, down: Key)
    requires
        s.state matches AppStateView::Prompting(p) && {
            &&& p.step < p.placeholders.len()
            &&& p.placeholders[p.step as int].options is Some
            &&& p.placeholders[p.step as int].options->0.len() < usize::MAX
            &&& p.option_selected matches Some(i) && i < choice_count(p.placeholders[p.step as int])
        },
        is_up(up),
        is_down(down),
    ensures
        next(next(s, commands, up).0, commands, down) == (s, OutcomeView::Pending),
{
}

/// Typing a character and erasing it leaves the prompt as it was.
pub proof fn law_type_then_erase(s: SessionView, commands: Seq<CommandView>, c: char)
    requires
        s.state matches AppStateView::Prompting(p) && p.step < p.placeholders.len()
            && p.placeholders[p.step as int].options is None,
    ensures
        next(next(s, commands, Key::Char(c)).0, commands, Key::Backspace) == (s, OutcomeView::Pending),
{
    let p = s.state->Prompting_0;
    assert(p.text.push(c).drop_last() =~= p.text);
}

/// `Esc` abandons a prompt: the command list comes back with the same
/// selection.
pub proof fn law_escape_abandons_prompt(s: SessionView, commands: Seq<CommandView>)
    requires
        s.state is Prompting,
    ensures
        next(s, commands, Key::Esc) == (SessionView { selected: s.selected, state: AppStateView::Browsing }, OutcomeView::Pending),
{
}

/// In a well-formed state every key can be taken: nothing the picker reads
/// lies outside its lists.
pub proof fn law_takes_every_key(s: SessionView, commands: Seq<CommandView>, key: Key)
    requires
        well_formed(s, commands),
    ensures
        can_take(s, commands, key),
{
    if let AppStateView::Prompting(p) = s.state {
        assert(lists_answerable(p.placeholders));
        let cur = p.placeholders[p.step as int];
        if let Some(os) = cur.options {
            assert(os.len() < usize::MAX);
        }
    }
}

/// The picker starts well-formed on a non-empty list.
pub proof fn law_start_well_formed(commands: Seq<CommandView>)
    requires
        1 <= commands.len() <= usize::MAX,
    ensures
        well_formed(SessionView { selected: Some(0usize), state: AppStateView::Browsing }, commands),
{
}

/// A key press that does not end the picker keeps the state well-formed,
/// when every list of choices in the commands can be answered. With the two
/// laws above: on such commands no sequence of keys makes the picker read
/// outside its lists.
pub proof fn law_step_keeps_well_formed(s: SessionView, commands: Seq<CommandView>, key: Key)
    requires
        well_formed(s, commands),
        commands_answerable(commands),
        next(s, commands, key).1 == OutcomeView::Pending,
    ensures
        well_formed(next(s, commands, key).0, commands),
{
    law_takes_every_key(s, commands, key);
    let t = next(s, commands, key).0;
    match s.state {
        AppStateView::Browsing => {
            if key == Key::Enter && s.selected is Some {
                let i = s.selected->0 as int;
                assert(lists_answerable(template_placeholders(commands[i].command)));
                let ps = template_placeholders(commands[i].command);
                if ps.len() > 0 {
                    assert(ps[0] == ps[0]);
                }
            }
        },
        AppStateView::Prompting(p) => {
            assert(p.placeholders[p.step as int] == p.placeholders[p.step as int]);
            if p.step + 1 < p.placeholders.len() {
                assert(p.placeholders[p.step + 1] == p.placeholders[p.step + 1]);
            }
        },
    }
}


/// Whether `v` can be the value of placeholder `p`: for a list, one of its
/// choices, or nothing when the value is optional (or the list offers no
/// choice at all); for text, trimmed text, not empty when a value is
/// required.
pub open spec fn admissible(p: PlaceholderView, v: Seq<char>) -> bool {
    match p.options {
        Some(os) => os.contains(v) || (v.len() == 0 && (!p.required || os.len() == 0)),
        None => trimmed(v) == v && (p.required ==> v.len() > 0),
    }
}

/// `template` with the first `vs.len()` placeholders of `ps` replaced in
/// turn by the values `vs`, each replacing every occurrence of the
/// placeholder's text.
pub open spec fn filled(template: Seq<char>, ps: Seq<PlaceholderView>, vs: Seq<Seq<char>>) -> Seq<char>
    decreases vs.len(),
{
    if vs.len() == 0 {
        template
    } else {
        replace_all(filled(template, ps, vs.drop_last()), ps[vs.len() - 1].raw, vs.last())
    }
}

/// Whether `out` is command `i` of `commands` with every placeholder
/// answered by an admissible value of `vs`.
pub open spec fn completes(out: Seq<char>, commands: Seq<CommandView>, i: int, vs: Seq<Seq<char>>) -> bool {
    let ps = template_placeholders(commands[i].command);
    &&& 0 <= i < commands.len()
    &&& vs.len() == ps.len()
    &&& out == filled(commands[i].command, ps, vs)
    &&& forall|k: int| 0 <= k < vs.len() ==> admissible(ps[k], #[trigger] vs[k])
}

/// Whether the length of every command text fits a `usize`, as it does for
/// every text held in memory.
pub open spec fn texts_fit(commands: Seq<CommandView>) -> bool {
    forall|i: int| 0 <= i < commands.len() ==> (#[trigger] commands[i]).command.len() <= usize::MAX
}

/// Whether the prompt `p` fills in command `i` of `commands` with its first
/// placeholders answered by the admissible values `vs`; the highlight of the
/// choice list is cleared only where the list has no entry.
pub open spec fn prompt_fills(p: PromptView, commands: Seq<CommandView>, i: int, vs: Seq<Seq<char>>) -> bool {
    &&& 0 <= i < commands.len()
    &&& p.placeholders == template_placeholders(commands[i].command)
    &&& p.placeholders.len() <= usize::MAX
    &&& vs.len() == p.step <= p.placeholders.len()
    &&& p.template == filled(commands[i].command, p.placeholders, vs)
    &&& forall|k: int| 0 <= k < vs.len() ==> admissible(p.placeholders[k], #[trigger] vs[k])
    &&& p.option_selected is None ==> p.step < p.placeholders.len() && choice_count(p.placeholders[p.step as int]) == 0
}

/// Whether the state `s` is one the picker's own decisions reach from the
/// command list.
pub open spec fn consistent(s: SessionView, commands: Seq<CommandView>) -> bool {
    match s.state {
        AppStateView::Browsing => true,
        AppStateView::Prompting(p) => exists|i: int, vs: Seq<Seq<char>>| #[trigger] prompt_fills(p, commands, i, vs),
    }
}

/// Whether `out` is one of the commands with all its placeholders answered.
pub open spec fn filled_command(out: Seq<char>, commands: Seq<CommandView>) -> bool {
    exists|i: int, vs: Seq<Seq<char>>| #[trigger] completes(out, commands, i, vs)
}

proof fn lemma_answer_consistent(selected: Option<usize>, p: PromptView, commands: Seq<CommandView>, i: int, vs: Seq<Seq<char>>, v: Seq<char>)
    requires
        prompt_fills(p, commands, i, vs),
        p.step < p.placeholders.len(),
        admissible(p.placeholders[p.step as int], v),
    ensures
        consistent(answer(selected, p, v).0, commands),
        answer(selected, p, v).1 matches OutcomeView::Done(Some(out)) ==> filled_command(out, commands),
{
    let ws = vs.push(v);
    let q = answer(selected, p, v).0.state->Prompting_0;
    assert(ws.drop_last() =~= vs);
    assert(filled(commands[i].command, p.placeholders, ws) == q.template);
    assert forall|k: int| 0 <= k < ws.len() implies admissible(p.placeholders[k], #[trigger] ws[k]) by {
        if k < vs.len() {
            assert(ws[k] == vs[k]);
        }
    }
    assert(prompt_fills(q, commands, i, ws));
    if p.step + 1 >= p.placeholders.len() {
        assert(completes(q.template, commands, i, ws));
    }
}

/// Each decision of the picker keeps its state consistent, and a command it
/// returns to be run is one of the listed commands with every placeholder
/// answered, in order, by an admissible value.
pub proof fn law_step_gives_filled_command(s: SessionView, commands: Seq<CommandView>, key: Key)
    requires
        texts_fit(commands),
        consistent(s, commands),
        can_take(s, commands, key),
    ensures
        consistent(next(s, commands, key).0, commands),
        next(s, commands, key).1 matches OutcomeView::Done(Some(out)) ==> filled_command(out, commands),
{
    match s.state {
        AppStateView::Browsing => {
            if key == Key::Enter && s.selected is Some && !(key == Key::Char('q') || key == Key::Esc) {
                let i = s.selected->0 as int;
                let empty = Seq::<Seq<char>>::empty();
                let ps = template_placeholders(commands[i].command);
                lemma_placeholder_count(commands[i].command);
                if ps.len() == 0 {
                    assert(completes(commands[i].command, commands, i, empty));
                } else {
                    let q = next(s, commands, key).0.state->Prompting_0;
                    assert(prompt_fills(q, commands, i, empty));
                }
            }
        },
        AppStateView::Prompting(p) => {
            let (i, vs) = choose|i: int, vs: Seq<Seq<char>>| #[trigger] prompt_fills(p, commands, i, vs);
            let cur = p.placeholders[p.step as int];
            if key == Key::Esc {
            } else if cur.options is Some {
                let os = cur.options->0;
                if is_down(key) || is_up(key) {
                    let q = next(s, commands, key).0.state->Prompting_0;
                    assert(prompt_fills(q, commands, i, vs));
                } else if key == Key::Enter {
                    let v = chosen_value(cur, p.option_selected);
                    if let Some(j) = p.option_selected {
                        if !cur.required && j > 0 {
                            assert(os[j - 1] == v);
                        } else if cur.required {
                            assert(os[j as int] == v);
                        }
                    }
                    lemma_answer_consistent(s.selected, p, commands, i, vs, v);
                } else {
                    assert(prompt_fills(p, commands, i, vs));
                }
            } else {
                match key {
                    Key::Enter => {
                        if !(cur.required && trimmed(p.text).len() == 0) {
                            lemma_trimmed_idempotent(p.text);
                            lemma_answer_consistent(s.selected, p, commands, i, vs, trimmed(p.text));
                        } else {
                            assert(prompt_fills(p, commands, i, vs));
                        }
                    },
                    _ => {
                        let q = next(s, commands, key).0.state->Prompting_0;
                        assert(prompt_fills(q, commands, i, vs));
                    },
                }
            }
        },
    }
}

/// The outcome of the keys `keys`, taken one after the other from state `s`
/// until the picker ends.
pub open spec fn run_keys(s: SessionView, commands: Seq<CommandView>, keys: Seq<Key>) -> OutcomeView
    decreases keys.len(),
{
    if keys.len() == 0 {
        OutcomeView::Pending
    } else {
        let (t, o) = next(s, commands, keys[0]);
        if o is Done {
            o
        } else {
            run_keys(t, commands, keys.drop_first())
        }
    }
}

/// Whether the picker can take each of `keys` in turn from state `s`, until
/// it ends.
pub open spec fn keys_taken(s: SessionView, commands: Seq<CommandView>, keys: Seq<Key>) -> bool
    decreases keys.len(),
{
    keys.len() == 0 || {
        &&& can_take(s, commands, keys[0])
        &&& next(s, commands, keys[0]).1 is Done || keys_taken(next(s, commands, keys[0]).0, commands, keys.drop_first())
    }
}

/// Whatever keys are pressed, a command the picker returns to be run is one
/// of the listed commands with every placeholder answered, in order, by an
/// admissible value.
pub proof fn law_run_gives_filled_command(s: SessionView, commands: Seq<CommandView>, keys: Seq<Key>)
    requires
        texts_fit(commands),
        consistent(s, commands),
        keys_taken(s, commands, keys),
    ensures
        run_keys(s, commands, keys) matches OutcomeView::Done(Some(out)) ==> filled_command(out, commands),
    decreases keys.len(),
{
    if keys.len() > 0 {
        law_step_gives_filled_command(s, commands, keys[0]);
        let (t, o) = next(s, commands, keys[0]);
        if !(o is Done) {
            law_run_gives_filled_command(t, commands, keys.drop_first());
        }
    }
}

/// The picker starts consistent.
pub proof fn law_start_consistent(commands: Seq<CommandView>)
    ensures
        consistent(SessionView { selected: Some(0usize), state: AppStateView::Browsing }, commands),
{
}


/// In the command list, the down arrow or `j` selects the next command, or
/// the first after the last; the up arrow or `k` selects the previous one, or
/// the last before the first; with nothing selected either selects the
/// first. The picker goes on.
pub proof fn law_list_moves(s: SessionView, commands: Seq<CommandView>, key: Key)
    requires
        s.state is Browsing,
        1 <= commands.len() <= usize::MAX,
        s.selected matches Some(i) ==> i < commands.len(),
    ensures
        (key == Key::Down || key == Key::Char('j')) ==> next(s, commands, key) == (SessionView {
            selected: Some(
                match s.selected {
                    Some(i) => if i + 1 < commands.len() { (i + 1) as usize } else { 0usize },
                    None => 0usize,
                },
            ),
            state: AppStateView::Browsing,
        }, OutcomeView::Pending),
        (key == Key::Up || key == Key::Char('k')) ==> next(s, commands, key) == (SessionView {
            selected: Some(
                match s.selected {
                    Some(i) => if i > 0 { (i - 1) as usize } else { (commands.len() - 1) as usize },
                    None => 0usize,
                },
            ),
            state: AppStateView::Browsing,
        }, OutcomeView::Pending),
{
}

/// In the command list, `q` and `Esc` end the picker with nothing to run,
/// and `Enter` on a command without placeholders ends it with that command.
pub proof fn law_list_quit_and_pick(s: SessionView, commands: Seq<CommandView>, i: usize)
    requires
        s.state is Browsing,
    ensures
        next(s, commands, Key::Char('q')) == (s, OutcomeView::Done(None)),
        next(s, commands, Key::Esc) == (s, OutcomeView::Done(None)),
        (s.selected == Some(i) && i < commands.len() && template_placeholders(commands[i as int].command).len() == 0)
            ==> next(s, commands, Key::Enter) == (s, OutcomeView::Done(Some(commands[i as int].command))),
        s.selected is None ==> next(s, commands, Key::Enter) == (s, OutcomeView::Pending),
{
}

/// `Enter` on a command with placeholders asks for the first of them, with
/// nothing typed and the first choice highlighted.
pub proof fn law_list_enter_prompts(s: SessionView, commands: Seq<CommandView>, i: usize)
    requires
        s.state is Browsing,
        s.selected == Some(i),
        i < commands.len(),
        template_placeholders(commands[i as int].command).len() > 0,
    ensures
        next(s, commands, Key::Enter) == (SessionView {
            selected: s.selected,
            state: AppStateView::Prompting(PromptView {
                template: commands[i as int].command,
                placeholders: template_placeholders(commands[i as int].command),
                step: 0,
                text: seq![],
                option_selected: Some(0),
            }),
        }, OutcomeView::Pending),
{
}

/// In a list of `n` choices (counting the entry for leaving an optional value
/// empty), the down arrow or `j` highlights the next entry, or the first after
/// the last, and the up arrow or `k` the previous one, or the last before the
/// first; nothing else changes.
pub proof fn law_choice_moves(s: SessionView, commands: Seq<CommandView>, key: Key)
    requires
        s.state matches AppStateView::Prompting(p) && p.step < p.placeholders.len()
            && p.placeholders[p.step as int].options is Some && p.option_selected is Some,
    ensures
        ({
            let p = s.state->Prompting_0;
            let cur = p.placeholders[p.step as int];
            let os = cur.options->0;
            let n = if cur.required { os.len() as int } else { os.len() as int + 1 };
            let i = p.option_selected->0 as int;
            &&& (i < n <= usize::MAX && (key == Key::Down || key == Key::Char('j'))) ==> next(s, commands, key) == (
            SessionView {
                selected: s.selected,
                state: AppStateView::Prompting(PromptView { option_selected: Some(if i + 1 < n { (i + 1) as usize } else { 0usize }), ..p }),
            }, OutcomeView::Pending)
            &&& (i < n <= usize::MAX && (key == Key::Up || key == Key::Char('k'))) ==> next(s, commands, key) == (
            SessionView {
                selected: s.selected,
                state: AppStateView::Prompting(PromptView { option_selected: Some(if i > 0 { (i - 1) as usize } else { (n - 1) as usize }), ..p }),
            }, OutcomeView::Pending)
        }),
{
}

/// `Enter` in a list of choices answers with the highlighted entry: the
/// choice itself, or nothing for the entry that leaves an optional value
/// empty. Every occurrence of the placeholder's text in the command is
/// replaced by the answer, the next placeholder is asked for, and after the
/// last one the filled command is run.
pub proof fn law_choice_enter(s: SessionView, commands: Seq<CommandView>)
    requires
        s.state matches AppStateView::Prompting(p) && p.step < p.placeholders.len() <= usize::MAX
            && p.placeholders[p.step as int].options is Some && p.option_selected is Some,
    ensures
        ({
            let p = s.state->Prompting_0;
            let cur = p.placeholders[p.step as int];
            let os = cur.options->0;
            let i = p.option_selected->0 as int;
            let v = if cur.required { os[i] } else if i == 0 { seq![] } else { os[i - 1] };
            let t = replace_all(p.template, cur.raw, v);
            next(s, commands, Key::Enter) == (SessionView {
                selected: s.selected,
                state: AppStateView::Prompting(PromptView {
                    template: t,
                    placeholders: p.placeholders,
                    step: (p.step + 1) as usize,
                    text: seq![],
                    option_selected: Some(0),
                }),
            }, if p.step + 1 == p.placeholders.len() { OutcomeView::Done(Some(t)) } else { OutcomeView::Pending })
        }),
{
}

/// `Enter` in a text prompt answers with the typed text, trimmed, unless a
/// value is required and the trimmed text is empty (then nothing changes):
/// every occurrence of the placeholder's text in the command is replaced by
/// the answer, the next placeholder is asked for, and after the last one the
/// filled command is run. It never ends the picker without a command.
pub proof fn law_text_enter(s: SessionView, commands: Seq<CommandView>)
    requires
        s.state matches AppStateView::Prompting(p) && p.step < p.placeholders.len() <= usize::MAX
            && p.placeholders[p.step as int].options is None,
    ensures
        ({
            let p = s.state->Prompting_0;
            let cur = p.placeholders[p.step as int];
            let v = trimmed(p.text);
            let t = replace_all(p.template, cur.raw, v);
            &&& (v.len() > 0 || !cur.required) ==> next(s, commands, Key::Enter) == (SessionView {
                selected: s.selected,
                state: AppStateView::Prompting(PromptView {
                    template: t,
                    placeholders: p.placeholders,
                    step: (p.step + 1) as usize,
                    text: seq![],
                    option_selected: Some(0),
                }),
            }, if p.step + 1 == p.placeholders.len() { OutcomeView::Done(Some(t)) } else { OutcomeView::Pending })
            &&& (v.len() == 0 && cur.required) ==> next(s, commands, Key::Enter) == (s, OutcomeView::Pending)
            &&& next(s, commands, Key::Enter).1 != OutcomeView::Done(None)
        }),
{
}

/// In a text prompt a typed character is added at the end of the text and
/// `Backspace` removes the last character, if any; nothing else changes.
pub proof fn law_text_editing(s: SessionView, commands: Seq<CommandView>, c: char)
    requires
        s.state matches AppStateView::Prompting(p) && p.step < p.placeholders.len()
            && p.placeholders[p.step as int].options is None,
    ensures
        ({
            let p = s.state->Prompting_0;
            &&& next(s, commands, Key::Char(c)) == (SessionView {
                selected: s.selected,
                state: AppStateView::Prompting(PromptView { text: p.text.push(c), ..p }),
            }, OutcomeView::Pending)
            &&& next(s, commands, Key::Backspace) == (SessionView {
                selected: s.selected,
                state: AppStateView::Prompting(PromptView { text: p.text.take(if p.text.len() > 0 { p.text.len() - 1 } else { 0 }), ..p }),
            }, OutcomeView::Pending)
        }),
{
    let p = s.state->Prompting_0;
    if p.text.len() > 0 {
        assert(p.text.drop_last() =~= p.text.take(p.text.len() - 1));
    } else {
        assert(p.text =~= p.text.take(0));
    }
}


/// A key the picker does not use changes nothing.
pub proof fn law_other_key(s: SessionView, commands: Seq<CommandView>)
    requires
        s.state matches AppStateView::Prompting(p) ==> p.step < p.placeholders.len(),
    ensures
        next(s, commands, Key::Other) == (s, OutcomeView::Pending),
{
}

} // verus!
