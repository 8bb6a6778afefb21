//! Rows of text for a terminal screen: what they say, and how they are set off.
use crate::text::{chars_of, copy_text, push_text};
use vstd::prelude::*;

verus! {

/// How a row is set off from the others.
#[derive(Debug, Clone, Copy, PartialEq, Eq, Structural)]
pub enum Tone {
    /// As it is.
    Plain,
    /// A heading.
    Bold,
    /// Of minor importance.
    Dim,
    /// Asking for attention.
    Yellow,
}

/// A row of text.
#[derive(Debug, Clone)]
pub struct Row {
    /// What the row says.
    pub text: String,
    /// How it is set off.
    pub tone: Tone,
}

impl View for Row {
    type V = (Seq<char>, Tone);

    open spec fn view(&self) -> (Seq<char>, Tone) {
        (self.text@, self.tone)
    }
}

/// What the rows are.
pub open spec fn shown(rows: Seq<Row>) -> Seq<(Seq<char>, Tone)> {
    rows.map_values(|r: Row| r@)
}

/// Adds a row.
pub(crate) fn add_row(rows: &mut Vec<Row>, text: String, tone: Tone)
    ensures
        shown(final(rows)@) == shown(old(rows)@).push((text@, tone)),
{
    rows.push(Row { text, tone });
    assert(shown(rows@) =~= shown(old(rows)@).push((text@, tone)));
}

/// Adds a row with a fixed text.
pub(crate) fn add_label(rows: &mut Vec<Row>, text: &str, tone: Tone)
    ensures
        shown(final(rows)@) == shown(old(rows)@).push((text@, tone)),
{
    add_row(rows, copy_text(text), tone);
}

/// The first items, at most `n`.
pub open spec fn front<T>(items: Seq<T>, n: int) -> Seq<T> {
    if items.len() <= n {
        items
    } else {
        items.take(n)
    }
}

/// A run of spaces.
pub open spec fn spaces(n: int) -> Seq<char> {
    Seq::new(n as nat, |i: int| ' ')
}

/// The text, set to the right of a column that is `width` wide. A longer text is kept
/// whole.
pub open spec fn set_right(s: Seq<char>, width: int) -> Seq<char> {
    if s.len() < width {
        spaces(width - s.len()) + s
    } else {
        s
    }
}

/// The text, set to the left of a column that is `width` wide. A longer text is kept
/// whole.
pub open spec fn set_left(s: Seq<char>, width: int) -> Seq<char> {
    if s.len() < width {
        s + spaces(width - s.len())
    } else {
        s
    }
}

/// Appends the spaces that fill a column up to its width.
fn push_fill(out: &mut String, used: usize, width: usize)
    ensures
        final(out)@ == old(out)@ + (if used < width {
            spaces(width - used)
        } else {
            Seq::empty()
        }),
{
    let ghost before = out@;
    let mut i: usize = used;
    while i < width
        invariant
            used <= i,
            used < width ==> i <= width,
            used >= width ==> i == used,
            out@ == before + spaces(i - used),
        decreases width - i,
    {
        out.push(' ');
        i = i + 1;
        assert(out@ =~= before + spaces(i - used));
    }
    assert(spaces(0) =~= Seq::<char>::empty());
}

/// Appends a text, set to the right of a column.
fn push_right(out: &mut String, s: &str, width: usize)
    ensures
        final(out)@ == old(out)@ + set_right(s@, width as int),
{
    let ghost before = out@;
    push_fill(out, chars_of(s).len(), width);
    push_text(out, s);
    assert(out@ =~= before + set_right(s@, width as int));
}

/// Appends a text, set to the left of a column.
fn push_left(out: &mut String, s: &str, width: usize)
    ensures
        final(out)@ == old(out)@ + set_left(s@, width as int),
{
    let ghost before = out@;
    push_text(out, s);
    push_fill(out, chars_of(s).len(), width);
    assert(out@ =~= before + set_left(s@, width as int));
}

/// A binding: the chord, set to the right of its column, and the action.
pub open spec fn binding_text(chord: Seq<char>, action: Seq<char>) -> Seq<char> {
    "  "@ + set_right(chord, 12) + "  "@ + action
}

/// The line of a binding.
pub(crate) fn binding_line(chord: &str, action: &str) -> (line: String)
    ensures
        line@ == binding_text(chord@, action@),
{
    let mut line = copy_text("  ");
    push_right(&mut line, chord, 12);
    push_text(&mut line, "  ");
    push_text(&mut line, action);
    line
}

/// Three texts, the first two of them set to the left of columns that are `first` and
/// `second` wide.
pub open spec fn columns(
    row: (Seq<char>, Seq<char>, Seq<char>),
    first: int,
    second: int,
) -> Seq<char> {
    set_left(row.0, first) + set_left(row.1, second) + row.2
}

/// The line of three texts in columns.
pub(crate) fn column_line(a: &str, b: &str, c: &str, first: usize, second: usize) -> (line: String)
    ensures
        line@ == columns((a@, b@, c@), first as int, second as int),
{
    let mut line = String::new();
    push_left(&mut line, a, first);
    push_left(&mut line, b, second);
    push_text(&mut line, c);
    assert(line@ =~= columns((a@, b@, c@), first as int, second as int));
    line
}

/// A flag in words.
pub open spec fn flag_text(flag: bool) -> Seq<char> {
    if flag {
        "true"@
    } else {
        "false"@
    }
}

/// A flag in words.
pub(crate) fn flag_word(flag: bool) -> (s: &'static str)
    ensures
        s@ == flag_text(flag),
{
    if flag {
        "true"
    } else {
        "false"
    }
}

/// A column is filled up with spaces, on the one side or the other, and no text is cut.
pub proof fn law_columns_are_filled_up(s: Seq<char>, width: int, i: int)
    ensures
        set_right(s, width).len() == if s.len() < width {
            width
        } else {
            s.len() as int
        },
        set_left(s, width).len() == set_right(s, width).len(),
        s.is_suffix_of(set_right(s, width)),
        s.is_prefix_of(set_left(s, width)),
        0 <= i < set_right(s, width).len() - s.len() ==> set_right(s, width)[i] == ' ',
        s.len() <= i < set_left(s, width).len() ==> set_left(s, width)[i] == ' ',
{
    let r = set_right(s, width);
    assert(r.subrange(r.len() - s.len(), r.len() as int) =~= s);
    assert(set_left(s, width).subrange(0, s.len() as int) =~= s);
}

/// The first items are shown in their order, all of them where there is room.
pub proof fn law_front_is_the_first_items<T>(items: Seq<T>, n: int)
    requires
        n >= 0,
    ensures
        front(items, n).is_prefix_of(items),
        items.len() <= n ==> front(items, n) == items,
        items.len() > n ==> front(items, n).len() == n,
{
    assert(front(items, n) =~= items.subrange(0, front(items, n).len() as int));
}

} // verus!
