//! Command files.
//!
//! A command file holds one command per line: a name and a command separated
//! with `|`, written `name | command`. Lines are cut as `str::lines` cuts them
//! (at `\n`, dropping a `\r` before it); a line is split at its first `|`,
//! the space that sets each section off from the `|` (if there is one) is not
//! part of it, and a line without `|` is skipped.
//! Adding a command appends its line, preceded by a line break when the file
//! does not already end with one.

use vstd::prelude::*;
use crate::text::chars_of;

verus! {

/// What is written between a command's name and its text: `|` set off by a
/// space on each side.
pub open spec fn separator() -> Seq<char> {
    seq![' ', '|', ' ']
}

/// A command as values.
pub struct CommandView {
    pub name: Seq<char>,
    pub command: Seq<char>,
    pub file_path: Seq<char>,
}

/// A command read from, or written to, a command file.
#[derive(Debug, Clone)]
pub struct Command {
    /// The name shown in the list.
    pub name: String,
    /// The command text, possibly a template with placeholders.
    pub command: String,
    /// The file the command was read from or is stored in.
    pub file_path: String,
}

impl View for Command {
    type V = CommandView;

    open spec fn view(&self) -> CommandView {
        CommandView { name: self.name@, command: self.command@, file_path: self.file_path@ }
    }
}

/// The views of a list of commands.
pub open spec fn command_views(v: Seq<Command>) -> Seq<CommandView> {
    v.map_values(|c: Command| c@)
}

/// The line that stores a command: its name, ` | `, its text.
pub open spec fn store_line(name: Seq<char>, command: Seq<char>) -> Seq<char> {
    name + separator() + command
}

/// The first index at or after `k` where `|` stands in `line`, or
/// `line.len()` when it stands there no more.
pub open spec fn bar_index(line: Seq<char>, k: int) -> int
    decreases line.len() - k,
{
    if k < 0 || k >= line.len() {
        line.len() as int
    } else if line[k] == '|' {
        k
    } else {
        bar_index(line, k + 1)
    }
}

/// `s` without the space it ends with, if it ends with one.
pub open spec fn drop_space_end(s: Seq<char>) -> Seq<char> {
    if s.len() > 0 && s.last() == ' ' {
        s.drop_last()
    } else {
        s
    }
}

/// `s` without the space it begins with, if it begins with one.
pub open spec fn drop_space_start(s: Seq<char>) -> Seq<char> {
    if s.len() > 0 && s[0] == ' ' {
        s.drop_first()
    } else {
        s
    }
}

/// The command a line holds, as a list of at most one entry: the text before
/// the first `|` is the name, the text after it the command, each without the
/// space next to the `|`.
pub open spec fn parse_line(line: Seq<char>, path: Seq<char>) -> Seq<CommandView> {
    let k = bar_index(line, 0);
    if k < line.len() {
        seq![CommandView { name: drop_space_end(line.take(k)), command: drop_space_start(line.skip(k + 1)), file_path: path }]
    } else {
        seq![]
    }
}

/// The line `s[start..end]` with a final `\r` dropped.
pub open spec fn line_text(s: Seq<char>, start: int, end: int) -> Seq<char> {
    if end > start && s[end - 1] == '\r' {
        s.subrange(start, end - 1)
    } else {
        s.subrange(start, end)
    }
}

/// The commands held by the lines of `s` from the line that begins at
/// `start`, the scan standing at `i` within it.
pub open spec fn commands_from(s: Seq<char>, path: Seq<char>, start: int, i: int) -> Seq<CommandView>
    decreases s.len() - i,
{
    if i >= s.len() {
        if 0 <= start < s.len() {
            parse_line(s.subrange(start, s.len() as int), path)
        } else {
            seq![]
        }
    } else if i < 0 {
        seq![]
    } else if s[i] == '\n' {
        parse_line(line_text(s, start, i), path) + commands_from(s, path, i + 1, i + 1)
    } else {
        commands_from(s, path, start, i + 1)
    }
}

/// The commands held by the text of a command file at `path`.
pub open spec fn file_commands(s: Seq<char>, path: Seq<char>) -> Seq<CommandView> {
    commands_from(s, path, 0, 0)
}

/// What adding a command appends to a file whose last byte is `last_byte`
/// (`None` for an empty file): a line break unless the file is empty or ends
/// with one, then the command's line and a line break.
pub open spec fn appended(last_byte: Option<u8>, name: Seq<char>, command: Seq<char>) -> Seq<char> {
    let lead = match last_byte {
        Some(b) => if b == 10 { seq![] } else { seq!['\n'] },
        None => seq![],
    };
    lead + store_line(name, command) + seq!['\n']
}

impl Command {
    /// The line that stores this command in a command file.
    pub fn to_store_string(&self) -> (r: String)
        ensures
            r@ == store_line(self.name@, self.command@),
    {
        let mut s = self.name.clone();
        s.append(" | ");
        s.append(self.command.as_str());
        proof {
            reveal_strlit(" | ");
        }
        s
    }
}

/// The text to append to a command file whose last byte is `last_byte`
/// (`None` when the file is empty) to add `command`.
pub fn appended_text(last_byte: Option<u8>, command: &Command) -> (r: String)
    ensures
        r@ == appended(last_byte, command.name@, command.command@),
{
    let lead = match last_byte {
        Some(b) => b != 10,
        None => false,
    };
    let mut s = String::new();
    if lead {
        s.append("\n");
    }
    let line = command.to_store_string();
    s.append(line.as_str());
    s.append("\n");
    proof {
        reveal_strlit("\n");
    }
    assert(s@ =~= appended(last_byte, command.name@, command.command@));
    s
}

/// Reads the command that the line `cs[start..end]` holds, if any, into `out`.
fn read_line(
    text: &str,
    cs: &Vec<char>,
    start: usize,
    end: usize,
    path: &str,
    out: &mut Vec<Command>,
)
    requires
        cs@ == text@,
        start <= end <= cs.len(),
    ensures
        command_views(final(out)@) == command_views(old(out)@) + parse_line(
            cs@.subrange(start as int, end as int),
            path@,
        ),
{
    let ghost line = cs@.subrange(start as int, end as int);
    let mut k = start;
    while k < end && cs[k] != '|'
        invariant
            start <= k <= end <= cs.len(),
            line == cs@.subrange(start as int, end as int),
            bar_index(line, 0) == bar_index(line, k - start),
        decreases end - k,
    {
        k += 1;
    }
    let ghost prev = command_views(out@);
    if k < end {
        let name_end = if k > start && cs[k - 1] == ' ' { k - 1 } else { k };
        let command_start = if k + 1 < end && cs[k + 1] == ' ' { k + 2 } else { k + 1 };
        let name = String::from_str(text.substring_char(start, name_end));
        let command = String::from_str(text.substring_char(command_start, end));
        let file_path = String::from_str(path);
        let c = Command { name, command, file_path };
        out.push(c);
        assert(drop_space_end(line.take(k - start)) =~= cs@.subrange(start as int, name_end as int));
        assert(drop_space_start(line.skip(k - start + 1)) =~= cs@.subrange(command_start as int, end as int));
        assert(command_views(out@) =~= prev + parse_line(line, path@));
    } else {
        assert(command_views(out@) =~= prev + parse_line(line, path@));
    }
}

/// The commands held by the text of the command file at `file_path`, in
/// the order of their lines.
pub fn parse_commands(text: &str, file_path: &str) -> (r: Vec<Command>)
    ensures
        command_views(r@) == file_commands(text@, file_path@),
{
    let cs = chars_of(text);
    let mut out: Vec<Command> = Vec::new();
    let mut start: usize = 0;
    let mut i: usize = 0;
    assert(command_views(out@) =~= Seq::<CommandView>::empty());
    while i < cs.len()
        invariant
            cs@ == text@,
            start <= i <= cs.len(),
            file_commands(text@, file_path@) == command_views(out@) + commands_from(
                cs@,
                file_path@,
                start as int,
                i as int,
            ),
        decreases cs.len() - i,
    {
        if cs[i] == '\n' {
            let end = if i > start && cs[i - 1] == '\r' {
                i - 1
            } else {
                i
            };
            let ghost prev = command_views(out@);
            read_line(text, &cs, start, end, file_path, &mut out);
            assert(cs@.subrange(start as int, end as int) == line_text(cs@, start as int, i as int));
            assert(prev + commands_from(cs@, file_path@, start as int, i as int) =~= command_views(
                out@,
            ) + commands_from(cs@, file_path@, (i + 1) as int, (i + 1) as int));
            start = i + 1;
        }
        i += 1;
    }
    let ghost prev = command_views(out@);
    if start < cs.len() {
        read_line(text, &cs, start, cs.len(), file_path, &mut out);
        assert(prev + commands_from(cs@, file_path@, start as int, i as int) =~= command_views(
            out@,
        ));
    } else {
        assert(prev + commands_from(cs@, file_path@, start as int, i as int) =~= command_views(
            out@,
        ));
    }
    out
}


proof fn lemma_commands_shift(x: Seq<char>, y: Seq<char>, path: Seq<char>, a: int, b: int)
    requires
        0 <= a <= b <= y.len(),
    ensures
        commands_from(x + y, path, x.len() + a, x.len() + b) == commands_from(y, path, a, b),
    decreases y.len() - b,
{
    let s = x + y;
    if b >= y.len() {
        if a < y.len() {
            assert(s.subrange(x.len() + a, s.len() as int) =~= y.subrange(a, y.len() as int));
        }
    } else {
        assert(s[x.len() + b] == y[b]);
        if y[b] == '\n' {
            lemma_commands_shift(x, y, path, b + 1, b + 1);
            if b > a {
                assert(s[x.len() + b - 1] == y[b - 1]);
            }
            assert(line_text(s, x.len() + a, x.len() + b) =~= line_text(y, a, b));
        } else {
            lemma_commands_shift(x, y, path, a, b + 1);
        }
    }
}

proof fn lemma_commands_concat(x: Seq<char>, y: Seq<char>, path: Seq<char>, start: int, i: int)
    requires
        0 <= start <= i <= x.len(),
        x.len() > 0 ==> x.last() == '\n',
        i == x.len() ==> start == x.len(),
    ensures
        commands_from(x + y, path, start, i) == commands_from(x, path, start, i) + file_commands(
            y,
            path,
        ),
    decreases x.len() - i,
{
    let s = x + y;
    if i == x.len() {
        lemma_commands_shift(x, y, path, 0, 0);
        assert(commands_from(x, path, start, i) =~= Seq::<CommandView>::empty());
        assert(commands_from(x, path, start, i) + file_commands(y, path) =~= file_commands(y, path));
    } else {
        assert(s[i] == x[i]);
        if x[i] == '\n' {
            lemma_commands_concat(x, y, path, i + 1, i + 1);
            if i > start {
                assert(s[i - 1] == x[i - 1]);
            }
            assert(line_text(s, start, i) =~= line_text(x, start, i));
            let l = parse_line(line_text(x, start, i), path);
            assert(l + (commands_from(x, path, i + 1, i + 1) + file_commands(y, path)) =~= (l
                + commands_from(x, path, i + 1, i + 1)) + file_commands(y, path));
        } else {
            lemma_commands_concat(x, y, path, start, i + 1);
        }
    }
}

proof fn lemma_commands_close_line(e: Seq<char>, path: Seq<char>, start: int, i: int)
    requires
        0 <= start <= i <= e.len(),
        e.len() > 0,
        e.last() != '\r',
    ensures
        commands_from(e.push('\n'), path, start, i) == commands_from(e, path, start, i),
    decreases e.len() - i,
{
    let s = e.push('\n');
    if i == e.len() {
        assert(s[i] == '\n');
        assert(commands_from(s, path, i + 1, i + 1) =~= Seq::<CommandView>::empty());
        if start < i {
            assert(s[i - 1] == e[i - 1]);
            assert(line_text(s, start, i) =~= e.subrange(start, e.len() as int));
            assert(parse_line(line_text(s, start, i), path) + Seq::<CommandView>::empty()
                =~= parse_line(e.subrange(start, e.len() as int), path));
        } else {
            assert(line_text(s, start, i).len() == 0);
            assert(parse_line(line_text(s, start, i), path) =~= Seq::<CommandView>::empty());
        }
    } else {
        assert(s[i] == e[i]);
        if e[i] == '\n' {
            lemma_commands_close_line(e, path, i + 1, i + 1);
            if i > start {
                assert(s[i - 1] == e[i - 1]);
            }
            assert(line_text(s, start, i) =~= line_text(e, start, i));
        } else {
            lemma_commands_close_line(e, path, start, i + 1);
        }
    }
}

/// Conditions under which a command's line reads back as the same command:
/// no line break in its name or text, no `\r` ending its text, and no `|` in
/// its name.
pub open spec fn storable(name: Seq<char>, command: Seq<char>) -> bool {
    &&& !name.contains('\n')
    &&& !command.contains('\n')
    &&& command.len() > 0 ==> command.last() != '\r'
    &&& !name.contains('|')
}

proof fn lemma_bar_after_name(name: Seq<char>, command: Seq<char>, k: int)
    requires
        storable(name, command),
        0 <= k <= name.len() + 1,
    ensures
        bar_index(store_line(name, command), k) == name.len() + 1,
    decreases name.len() + 1 - k,
{
    let l = store_line(name, command);
    let n = name.len() as int;
    assert(l[n] == ' ' && l[n + 1] == '|');
    if k <= n {
        if k < n {
            assert(l[k] == name[k]);
        }
        lemma_bar_after_name(name, command, k + 1);
    }
}

proof fn lemma_no_break_before(y: Seq<char>, path: Seq<char>, i: int, n: int)
    requires
        0 <= i <= n < y.len(),
        forall|j: int| i <= j < n ==> y[j] != '\n',
    ensures
        commands_from(y, path, 0, i) == commands_from(y, path, 0, n),
    decreases n - i,
{
    if i < n {
        lemma_no_break_before(y, path, i + 1, n);
    }
}

proof fn lemma_store_line_reads_back(name: Seq<char>, command: Seq<char>, path: Seq<char>)
    requires
        storable(name, command),
    ensures
        file_commands(store_line(name, command) + seq!['\n'], path) == seq![
            CommandView { name, command, file_path: path },
        ],
{
    let l = store_line(name, command);
    let y = l + seq!['\n'];
    let n = l.len() as int;
    assert forall|j: int| 0 <= j < n implies y[j] != '\n' by {
        if j < name.len() {
            assert(y[j] == name[j]);
        } else if j >= name.len() + 3 {
            assert(y[j] == command[j - name.len() - 3]);
        }
    }
    lemma_no_break_before(y, path, 0, n);
    assert(y[n] == '\n');
    assert(commands_from(y, path, n + 1, n + 1) =~= Seq::<CommandView>::empty());
    if command.len() > 0 {
        assert(y[n - 1] == command.last());
    } else {
        assert(y[n - 1] == ' ');
    }
    assert(line_text(y, 0, n) =~= l);
    lemma_bar_after_name(name, command, 0);
    assert(l.take(name.len() as int + 1) =~= name.push(' '));
    assert(name.push(' ').drop_last() =~= name);
    assert(l.skip(name.len() as int + 2) =~= seq![' '] + command);
    assert((seq![' '] + command).drop_first() =~= command);
    assert(parse_line(l, path) + Seq::<CommandView>::empty() =~= seq![
        CommandView { name, command, file_path: path },
    ]);
}

/// Adding a command to a command file and reading the file back gives the
/// commands the file held before, followed by the added one.
///
/// `last_byte` is the file's last byte, as adding reads it: `None` for an
/// empty file, `10` exactly when the text ends with a line break. The file
/// must not end with `\r` (a line break after it would turn its last line's
/// `\r` into part of a line ending), and the command must be `storable`.
pub proof fn law_add_then_read(
    existing: Seq<char>,
    last_byte: Option<u8>,
    name: Seq<char>,
    command: Seq<char>,
    path: Seq<char>,
)
    requires
        last_byte is None <==> existing.len() == 0,
        last_byte == Some(10u8) <==> (existing.len() > 0 && existing.last() == '\n'),
        existing.len() > 0 ==> existing.last() != '\r',
        storable(name, command),
    ensures
        file_commands(existing + appended(last_byte, name, command), path) == file_commands(
            existing,
            path,
        ).push(CommandView { name, command, file_path: path }),
{
    let line = store_line(name, command) + seq!['\n'];
    let c = CommandView { name, command, file_path: path };
    lemma_store_line_reads_back(name, command, path);
    if existing.len() == 0 {
        assert(appended(last_byte, name, command) =~= line);
        assert(existing + line =~= line);
        assert(file_commands(existing, path) =~= Seq::<CommandView>::empty());
        assert(Seq::<CommandView>::empty().push(c) =~= seq![c]);
    } else if existing.last() == '\n' {
        assert(appended(last_byte, name, command) =~= line);
        lemma_commands_concat(existing, line, path, 0, 0);
        assert(file_commands(existing, path) + seq![c] =~= file_commands(existing, path).push(c));
    } else {
        let x = existing.push('\n');
        assert(existing + appended(last_byte, name, command) =~= x + line);
        lemma_commands_concat(x, line, path, 0, 0);
        lemma_commands_close_line(existing, path, 0, 0);
        assert(file_commands(existing, path) + seq![c] =~= file_commands(existing, path).push(c));
    }
}


/// A command is stored as its name, ` | `, and its text.
pub proof fn law_store_line(name: Seq<char>, command: Seq<char>)
    ensures
        store_line(name, command) == name + seq![' ', '|', ' '] + command,
{
}

/// Adding a command appends its line and a line break; a line break goes
/// first only when the file is not empty and does not end with one.
pub proof fn law_appended(last_byte: Option<u8>, name: Seq<char>, command: Seq<char>)
    ensures
        (last_byte is None || last_byte == Some(10u8)) ==> appended(last_byte, name, command) == name + seq![' ', '|', ' '] + command + seq!['\n'],
        (last_byte matches Some(b) && b != 10) ==> appended(last_byte, name, command) == seq!['\n'] + name + seq![' ', '|', ' '] + command + seq!['\n'],
{
    assert(seq!['\n'] + (name + seq![' ', '|', ' '] + command) + seq!['\n'] =~= seq!['\n'] + name + seq![' ', '|', ' '] + command + seq!['\n']);
    assert(Seq::<char>::empty() + (name + seq![' ', '|', ' '] + command) + seq!['\n'] =~= name + seq![' ', '|', ' '] + command + seq!['\n']);
}

proof fn lemma_one_line(s: Seq<char>, path: Seq<char>, i: int)
    requires
        0 <= i <= s.len(),
        !s.contains('\n'),
    ensures
        commands_from(s, path, 0, i) == if s.len() > 0 { parse_line(s, path) } else { Seq::<CommandView>::empty() },
    decreases s.len() - i,
{
    if i < s.len() {
        if s[i] == '\n' {
            assert(s.contains('\n'));
        }
        lemma_one_line(s, path, i + 1);
    } else {
        assert(s.subrange(0, s.len() as int) =~= s);
    }
}

/// A line `name|command` is read as that name and command, when the name
/// holds no `|` and neither holds a line break, the name does not end with
/// a space, and the command neither begins with a space nor ends with `\r`.
pub proof fn law_read_line(name: Seq<char>, command: Seq<char>, path: Seq<char>)
    requires
        !name.contains('|'),
        !name.contains('\n'),
        !command.contains('\n'),
        name.len() > 0 ==> name.last() != ' ',
        command.len() > 0 ==> command[0] != ' ' && command.last() != '\r',
    ensures
        file_commands(name + seq!['|'] + command, path) == seq![CommandView { name, command, file_path: path }],
{
    let l = name + seq!['|'] + command;
    let n = name.len() as int;
    assert(!l.contains('\n')) by {
        if l.contains('\n') {
            let j = choose|j: int| 0 <= j < l.len() && l[j] == '\n';
            if j < n {
                assert(name[j] == '\n');
            } else if j > n {
                assert(command[j - n - 1] == '\n');
            }
        }
    }
    lemma_one_line(l, path, 0);
    assert forall|k: int| 0 <= k <= n implies bar_index(l, k) == n by {
        lemma_bar_at(name, command, k);
    }
    assert(l.take(n) =~= name);
    assert(l.skip(n + 1) =~= command);
}

proof fn lemma_bar_at(name: Seq<char>, command: Seq<char>, k: int)
    requires
        !name.contains('|'),
        0 <= k <= name.len(),
    ensures
        bar_index(name + seq!['|'] + command, k) == name.len(),
    decreases name.len() - k,
{
    let l = name + seq!['|'] + command;
    if k < name.len() {
        assert(l[k] == name[k]);
        if name[k] == '|' {
            assert(name.contains('|'));
        }
        lemma_bar_at(name, command, k + 1);
    } else {
        assert(l[k] == '|');
    }
}

} // verus!
