//! What the picker's screens show: the text of the command list's rows, the
//! prompt for a placeholder, and where the prompt's box lies.

use vstd::prelude::*;
use crate::placeholder::{PlaceholderView, string_views};
use crate::session::{AppState, Prompt, Session};
use crate::store::Command;
use crate::text::push_char;
use ratatui::layout::{Constraint, Direction, Layout, Rect};

verus! {

/// `n` spaces.
pub open spec fn spaces(n: nat) -> Seq<char> {
    Seq::new(n, |i: int| ' ')
}

/// `s` padded with spaces on the right to at least `width` characters, as
/// `format!("{:<width$}", s)` pads it.
pub open spec fn pad_right(s: Seq<char>, width: nat) -> Seq<char> {
    if s.len() >= width {
        s
    } else {
        s + spaces((width - s.len()) as nat)
    }
}

/// The width, in characters, of the name column of the command list.
pub open spec fn name_width() -> nat {
    16
}

/// `x - y`, or 0 when `y > x`.
pub open spec fn saturating_sub(x: int, y: int) -> int {
    if y > x {
        0
    } else {
        x - y
    }
}

/// The spaces between a row's command and its file label in a list
/// `list_width` cells wide: the inner width (the list's width less 4, at
/// least 0) less the padded name, the 3 cells of ` │ `, the command and the
/// label, at least 0.
pub open spec fn row_gap(list_width: u16, name: Seq<char>, command: Seq<char>, label: Seq<char>) -> nat {
    let inner = saturating_sub(list_width as int, 4);
    saturating_sub(inner, (pad_right(name, name_width()).len() + 3 + command.len() + label.len()) as int) as nat
}

/// A row of the command list is as wide as the list's inner width, or as
/// the name column, ` │ `, the command and the label need when that is more:
/// only the gap depends on the list's width.
pub proof fn law_row_width(list_width: u16, name: Seq<char>, command: Seq<char>, label: Seq<char>)
    ensures
        ({
            let needed = pad_right(name, name_width()).len() + 3 + command.len() + label.len();
            let inner = saturating_sub(list_width as int, 4);
            pad_right(name, name_width()).len() + 3 + command.len() + row_gap(list_width, name, command, label)
                + label.len() == if inner > needed { inner } else { needed as int }
        }),
{
}

/// The name column holds the name, then spaces up to 16 characters; a longer
/// name is kept whole.
pub proof fn law_name_column(name: Seq<char>)
    ensures
        pad_right(name, name_width()).len() == if name.len() >= 16 { name.len() } else { 16 },
        pad_right(name, name_width()).take(name.len() as int) == name,
        forall|j: int| name.len() <= j < pad_right(name, name_width()).len() ==> #[trigger] pad_right(name, name_width())[j] == ' ',
{
    let p = pad_right(name, name_width());
    assert(p.take(name.len() as int) =~= name);
}

/// `s` followed by `n` spaces.
fn push_spaces(s: &mut String, n: usize)
    ensures
        final(s)@ == old(s)@ + spaces(n as nat),
{
    let mut i: usize = 0;
    while i < n
        invariant
            i <= n,
            s@ == old(s)@ + spaces(i as nat),
        decreases n - i,
    {
        push_char(s, ' ');
        i += 1;
        assert(s@ =~= old(s)@ + spaces(i as nat));
    }
}

/// The text of a row of the command list, besides the command and the file
/// label themselves.
pub struct RowText {
    /// The name, padded to the name column's width.
    pub name: String,
    /// The spaces that push the file label to the right edge.
    pub gap: String,
}

/// The row of the command list that shows `command`, whose file is labelled
/// `label`, in a list `list_width` cells wide.
pub fn list_row(command: &Command, label: &str, list_width: u16) -> (r: RowText)
    requires
        pad_right(command.name@, name_width()).len() + 3 + command.command@.len() + label@.len()
            <= usize::MAX,
    ensures
        r.name@ == pad_right(command.name@, name_width()),
        r.gap@ == spaces(row_gap(list_width, command.name@, command.command@, label@)),
{
    let name_len = command.name.as_str().unicode_len();
    let mut name = command.name.clone();
    if name_len < 16 {
        push_spaces(&mut name, 16 - name_len);
    }
    let inner = if list_width >= 4 { (list_width - 4) as usize } else { 0 };
    let used = name.as_str().unicode_len() + 3 + command.command.as_str().unicode_len()
        + label.unicode_len();
    let gap_len = if used > inner { 0 } else { inner - used };
    let mut gap = String::new();
    push_spaces(&mut gap, gap_len);
    assert(gap@ =~= spaces(row_gap(list_width, command.name@, command.command@, label@)));
    RowText { name, gap }
}

/// The character of the decimal digit `d`.
pub open spec fn digit_char(d: nat) -> char {
    (d + 48) as char
}

/// The decimal notation of `n`.
pub open spec fn decimal(n: nat) -> Seq<char>
    decreases n,
{
    if n < 10 {
        seq![digit_char(n)]
    } else {
        decimal(n / 10).push(digit_char(n % 10))
    }
}

fn digit(d: usize) -> (c: char)
    requires
        d < 10,
    ensures
        c == digit_char(d as nat),
{
    let b: u8 = d as u8;
    (b + 48) as char
}

/// Appends the decimal notation of `n` to `s`.
fn push_decimal(s: &mut String, n: usize)
    ensures
        final(s)@ == old(s)@ + decimal(n as nat),
    decreases n,
{
    if n >= 10 {
        push_decimal(s, n / 10);
    }
    push_char(s, digit(n % 10));
    assert(final(s)@ =~= old(s)@ + decimal(n as nat));
}

/// The title that counts the placeholders: ` [step/total] Variable: `,
/// counting from 1.
pub open spec fn prompt_counter(step: nat, total: nat) -> Seq<char> {
    seq![' ', '['] + decimal(step + 1) + seq!['/'] + decimal(total) + seq![
        ']',
        ' ',
        'V',
        'a',
        'r',
        'i',
        'a',
        'b',
        'l',
        'e',
        ':',
        ' ',
    ]
}

/// The number that the decimal digits `ds` write.
pub open spec fn digits_value(ds: Seq<char>) -> int
    decreases ds.len(),
{
    if ds.len() == 0 {
        0
    } else {
        digits_value(ds.drop_last()) * 10 + (ds.last() as int - 48)
    }
}

/// Whether `ds` is a number written in decimal the usual way: digits only,
/// at least one, no leading zero.
pub open spec fn plain_decimal(ds: Seq<char>) -> bool {
    &&& ds.len() > 0
    &&& forall|j: int| 0 <= j < ds.len() ==> '0' <= #[trigger] ds[j] <= '9'
    &&& ds.len() > 1 ==> ds[0] != '0'
}

/// `decimal(n)` writes `n` in decimal the usual way.
pub proof fn law_decimal(n: nat)
    ensures
        plain_decimal(decimal(n)),
        digits_value(decimal(n)) == n,
        n > 0 ==> decimal(n)[0] != '0',
    decreases n,
{
    let k = n % 10;
    assert(digit_char(k) as int == k + 48);
    if n < 10 {
        let d = decimal(n);
        assert(d.drop_last() =~= Seq::<char>::empty());
        assert(digits_value(d.drop_last()) == 0);
        assert(digits_value(d) == digits_value(d.drop_last()) * 10 + (d.last() as int - 48));
        assert(d.last() == digit_char(k));
    }
    if n >= 10 {
        law_decimal(n / 10);
        let d = decimal(n);
        assert(d.last() == digit_char(k));
        assert(n == (n / 10) * 10 + k);
        assert(digits_value(d) == digits_value(d.drop_last()) * 10 + (d.last() as int - 48));
        assert(d.drop_last() =~= decimal(n / 10));
        assert(digits_value(d.drop_last()) == n / 10);
        assert(digits_value(d) == n);
        assert(d.drop_last() =~= decimal(n / 10));
        assert(d[0] == decimal(n / 10)[0]);
        assert forall|j: int| 0 <= j < d.len() implies '0' <= #[trigger] d[j] <= '9' by {
            if j < d.len() - 1 {
                assert(d[j] == decimal(n / 10)[j]);
            }
        }
    }
}

/// The counter reads ` [`, the number of the placeholder asked for (counting
/// from 1), `/`, the number of placeholders, and `] Variable: `, both numbers
/// in plain decimal.
pub proof fn law_prompt_counter(step: nat, total: nat)
    ensures
        exists|x: Seq<char>, y: Seq<char>|
            #![trigger digits_value(x), digits_value(y)]
            {
                &&& plain_decimal(x) && digits_value(x) == step + 1
                &&& plain_decimal(y) && digits_value(y) == total
                &&& prompt_counter(step, total) == seq![' ', '['] + x + seq!['/'] + y + seq![
                    ']',
                    ' ',
                    'V',
                    'a',
                    'r',
                    'i',
                    'a',
                    'b',
                    'l',
                    'e',
                    ':',
                    ' ',
                ]
            },
{
    law_decimal(step + 1);
    law_decimal(total);
    let x = decimal(step + 1);
    let y = decimal(total);
    assert(digits_value(x) == step + 1 && digits_value(y) == total);
}

/// The label that tells whether a value is required.
pub open spec fn requirement_label(required: bool) -> Seq<char> {
    if required {
        seq![' ', '(', 'R', 'e', 'q', 'u', 'i', 'r', 'e', 'd', ')']
    } else {
        seq![' ', '(', 'O', 'p', 't', 'i', 'o', 'n', 'a', 'l', ')']
    }
}

/// The entry of the choice list that leaves an optional value empty.
pub open spec fn skip_entry() -> Seq<char> {
    seq![' ', ' ', '(', 'S', 'k', 'i', 'p', ' ', '/', ' ', 'E', 'm', 'p', 't', 'y', ')']
}

/// The entries of the choice list of `p`: the entry for leaving an optional
/// value empty, then each choice indented by two spaces.
pub open spec fn choice_entries(p: PlaceholderView) -> Seq<Seq<char>> {
    let opts = p.options->0;
    let lead: Seq<Seq<char>> = if p.required { seq![] } else { seq![skip_entry()] };
    lead + opts.map_values(|o: Seq<char>| seq![' ', ' '] + o)
}

/// The choice list of a placeholder shows, for an optional value, first the
/// entry that leaves it empty, then each choice in order, indented by two
/// spaces.
pub proof fn law_choice_entries(p: PlaceholderView)
    requires
        p.options is Some,
    ensures
        ({
            let os = p.options->0;
            let lead = if p.required { 0int } else { 1int };
            let es = choice_entries(p);
            &&& es.len() == os.len() + lead
            &&& !p.required ==> es[0] == seq![' ', ' ', '(', 'S', 'k', 'i', 'p', ' ', '/', ' ', 'E', 'm', 'p', 't', 'y', ')']
            &&& forall|k: int| 0 <= k < os.len() ==> #[trigger] es[k + lead] == seq![' ', ' '] + os[k]
        }),
{
    let os = p.options->0;
    let lead = if p.required { 0int } else { 1int };
    let es = choice_entries(p);
    assert forall|k: int| 0 <= k < os.len() implies #[trigger] es[k + lead] == seq![' ', ' '] + os[k] by {
        let f = |o: Seq<char>| seq![' ', ' '] + o;
        let first: Seq<Seq<char>> = if p.required { seq![] } else { seq![skip_entry()] };
        assert(es == first + os.map_values(f));
        assert(es[k + lead] == os.map_values(f)[k]);
    }
}

/// The label says ` (Required)` for a required value and ` (Optional)`
/// otherwise.
pub proof fn law_requirement_label(required: bool)
    ensures
        requirement_label(true) == seq![' ', '(', 'R', 'e', 'q', 'u', 'i', 'r', 'e', 'd', ')'],
        requirement_label(false) == seq![' ', '(', 'O', 'p', 't', 'i', 'o', 'n', 'a', 'l', ')'],
{
}

/// How a placeholder is asked for: by a list of entries, or by a text field
/// showing the typed text and a cursor.
pub enum Entry {
    Choices(Vec<String>),
    Text(String),
}

/// What the prompt box shows.
pub struct PromptScreen {
    /// ` [step/total] Variable: `.
    pub counter: String,
    /// The placeholder's name.
    pub name: String,
    /// Whether a value is required.
    pub required: bool,
    /// ` (Required)` or ` (Optional)`.
    pub requirement: String,
    pub entry: Entry,
}

/// The prompt box for the placeholder being asked for in `p`.
fn prompt_screen_of(p: &Prompt) -> (r: PromptScreen)
    requires
        p.current_step < p.placeholders.len(),
    ensures
        ({
            let cur = p@.placeholders[p.current_step as int];
            &&& r.counter@ == prompt_counter(p.current_step as nat, p.placeholders.len() as nat)
            &&& r.name@ == cur.name
            &&& r.required == cur.required
            &&& r.requirement@ == requirement_label(cur.required)
            &&& r.entry matches Entry::Choices(items) ==> cur.options is Some && string_views(items@) == choice_entries(cur)
            &&& r.entry matches Entry::Text(t) ==> cur.options is None && t@ == p.text_input@.push('_')
        }),
{
    let cur = &p.placeholders[p.current_step];
    proof {
        assert(p@.placeholders[p.current_step as int] == cur@);
        reveal_strlit(" [");
        reveal_strlit("/");
        reveal_strlit("] Variable: ");
        reveal_strlit(" (Required)");
        reveal_strlit(" (Optional)");
        reveal_strlit("  (Skip / Empty)");
        reveal_strlit("  ");
    }
    let mut counter = String::from_str(" [");
    push_decimal(&mut counter, p.current_step + 1);
    counter.append("/");
    push_decimal(&mut counter, p.placeholders.len());
    counter.append("] Variable: ");
    assert(counter@ =~= prompt_counter(p.current_step as nat, p.placeholders.len() as nat));
    let requirement = if cur.required {
        String::from_str(" (Required)")
    } else {
        String::from_str(" (Optional)")
    };
    assert(requirement@ =~= requirement_label(cur.required));
    let entry = match &cur.options {
        Some(opts) => {
            let mut items: Vec<String> = Vec::new();
            if !cur.required {
                let skip = String::from_str("  (Skip / Empty)");
                assert(skip@ =~= skip_entry());
                items.push(skip);
                assert(string_views(items@) =~= seq![skip_entry()]);
            } else {
                assert(string_views(items@) =~= Seq::<Seq<char>>::empty());
            }
            let ghost lead = string_views(items@);
            let ghost f = |o: Seq<char>| seq![' ', ' '] + o;
            let mut i: usize = 0;
            while i < opts.len()
                invariant
                    i <= opts.len(),
                    lead == (if cur.required { Seq::<Seq<char>>::empty() } else { seq![skip_entry()] }),
                    f == (|o: Seq<char>| seq![' ', ' '] + o),
                    string_views(items@) == lead + string_views(opts@).take(i as int).map_values(f),
                decreases opts.len() - i,
            {
                let mut item = String::from_str("  ");
                item.append(opts[i].as_str());
                proof {
                    reveal_strlit("  ");
                }
                assert(string_views(opts@)[i as int] == opts@[i as int]@);
                assert(item@ == f(string_views(opts@)[i as int]));
                let ghost before = string_views(items@);
                items.push(item);
                assert(string_views(items@) =~= before.push(item@));
                assert(string_views(opts@).take(i as int).push(string_views(opts@)[i as int]).map_values(f)
                    =~= string_views(opts@).take(i as int).map_values(f).push(f(string_views(opts@)[i as int])));
                assert(string_views(opts@).take(i + 1) =~= string_views(opts@).take(i as int).push(string_views(opts@)[i as int]));
                assert(string_views(items@) =~= lead + string_views(opts@).take(i + 1).map_values(f));
                i += 1;
            }
            assert(string_views(opts@).take(i as int) =~= string_views(opts@));
            Entry::Choices(items)
        },
        None => {
            let mut t = p.text_input.clone();
            push_char(&mut t, '_');
            Entry::Text(t)
        },
    };
    PromptScreen { counter, name: cur.name.clone(), required: cur.required, requirement, entry }
}

impl Session {
    /// The prompt box, while a placeholder is asked for.
    pub fn prompt_screen(&self) -> (r: Option<PromptScreen>)
        ensures
            r is Some <==> (self.state matches AppState::Prompting(p) && p.current_step < p.placeholders.len()),
            r matches Some(screen) ==> (self.state matches AppState::Prompting(p) && {
                let cur = p@.placeholders[p.current_step as int];
                &&& screen.counter@ == prompt_counter(p.current_step as nat, p.placeholders.len() as nat)
                &&& screen.name@ == cur.name
                &&& screen.required == cur.required
                &&& screen.requirement@ == requirement_label(cur.required)
                &&& screen.entry matches Entry::Choices(items) ==> cur.options is Some && string_views(items@) == choice_entries(cur)
                &&& screen.entry matches Entry::Text(t) ==> cur.options is None && t@ == p.text_input@.push('_')
            }),
    {
        match &self.state {
            AppState::Prompting(p) => if p.current_step < p.placeholders.len() {
                Some(prompt_screen_of(p))
            } else {
                None
            },
            AppState::Browsing => None,
        }
    }
}


/// A rectangle of terminal cells: its top-left corner and its size.
#[derive(Clone, Copy, Debug, PartialEq, Eq, Structural)]
pub struct Area {
    pub x: u16,
    pub y: u16,
    pub width: u16,
    pub height: u16,
}

/// The rectangle `a` as `(x, y, width, height)`.
pub open spec fn area_tuple(a: Area) -> (u16, u16, u16, u16) {
    (a.x, a.y, a.width, a.height)
}

/// The rectangles into which `ratatui`'s layout solver splits `area`
/// (`(x, y, width, height)`), along the vertical axis when `vertical` and
/// along the horizontal one otherwise, for parts of `first`, `second` and
/// `third` percent that add up to at most 100.
pub uninterp spec fn percentage_split(
    vertical: bool,
    area: (u16, u16, u16, u16),
    first: u16,
    second: u16,
    third: u16,
) -> Seq<(u16, u16, u16, u16)>;

/// Splits `area` into three parts of the given percentages.
///
/// Calls `ratatui::layout::Layout::split` on a layout with the given
/// direction, no margin and the constraints `Percentage(first)`,
/// `Percentage(second)`, `Percentage(third)`. The contract names the result
/// and claims that the solver returns one rectangle per constraint; how the
/// solver places them is left unsaid. The solver's required constraints
/// (the area's bounds, every boundary within them and in order) can always
/// hold together, so the `expect` on its result does not fire.
///
/// The percentages add up to at most 100: then every part can have its share
/// exactly, and the solver's answer does not depend on the order in which it
/// visits its hash maps, so equal arguments give equal rectangles.
#[verifier::external_body]
fn split_percentages(
    vertical: bool,
    area: (u16, u16, u16, u16),
    first: u16,
    second: u16,
    third: u16,
) -> (parts: Vec<(u16, u16, u16, u16)>)
    requires
        first + second + third <= 100,
    ensures
        parts@ == percentage_split(vertical, area, first, second, third),
        parts@.len() == 3,
{
    let direction = if vertical { Direction::Vertical } else { Direction::Horizontal };
    let constraints = [Constraint::Percentage(first), Constraint::Percentage(second), Constraint::Percentage(third)];
    let rect = Rect { x: area.0, y: area.1, width: area.2, height: area.3 };
    let rects = Layout::default().direction(direction).constraints(constraints).split(rect);
    rects.iter().map(|r| (r.x, r.y, r.width, r.height)).collect()
}

/// The box `percent_x` percent wide and `percent_y` percent high in the
/// middle of `r`: the middle of three rows of `(100 - percent_y) / 2`,
/// `percent_y` and `(100 - percent_y) / 2` percent, cut into three columns
/// in the same way.
pub open spec fn centered(percent_x: u16, percent_y: u16, r: Area) -> (u16, u16, u16, u16) {
    let margin_y = ((100 - percent_y) / 2) as u16;
    let row = percentage_split(true, area_tuple(r), margin_y, percent_y, margin_y)[1];
    let margin_x = ((100 - percent_x) / 2) as u16;
    percentage_split(false, row, margin_x, percent_x, margin_x)[1]
}

/// The box `percent_x` percent wide and `percent_y` percent high in the
/// middle of `r`.
pub fn centered_rect(percent_x: u16, percent_y: u16, r: Area) -> (c: Area)
    requires
        percent_x <= 100,
        percent_y <= 100,
    ensures
        area_tuple(c) == centered(percent_x, percent_y, r),
{
    let margin_y = (100 - percent_y) / 2;
    let rows = split_percentages(true, (r.x, r.y, r.width, r.height), margin_y, percent_y, margin_y);
    let row = rows[1];
    let margin_x = (100 - percent_x) / 2;
    let columns = split_percentages(false, row, margin_x, percent_x, margin_x);
    let c = columns[1];
    Area { x: c.0, y: c.1, width: c.2, height: c.3 }
}

} // verus!
