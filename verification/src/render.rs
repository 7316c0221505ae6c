//! The text of a thread: one framed box for each transaction.
//!
//! All text is UTF-8 in bytes. A box is as wide as the longest of its lines,
//! counted in bytes; a line is padded by the number of its characters, so
//! that all lines of a box end in the same column.

use vstd::prelude::*;
use vstd::string::StringSliceAdditionalSpecFns;

verus! {

/// A transaction as it is shown: its lines, and the transactions before and
/// after it, in ascending order.
pub struct FrameView {
    pub id: Seq<u8>,
    pub depth: nat,
    pub lines: Seq<Seq<u8>>,
    pub predecessors: Seq<Seq<u8>>,
    pub successors: Seq<Seq<u8>>,
}

/// A byte that continues a character of more than one byte.
pub open spec fn is_continuation(b: u8) -> bool {
    0x80 <= b < 0xc0
}

/// The number of characters of a text: each byte counts that does not
/// continue a character.
pub open spec fn char_count(text: Seq<u8>) -> nat
    decreases text.len(),
{
    if text.len() == 0 {
        0
    } else if is_continuation(text.last()) {
        char_count(text.drop_last())
    } else {
        char_count(text.drop_last()) + 1
    }
}

/// `unit`, `n` times.
pub open spec fn repeat(unit: Seq<u8>, n: nat) -> Seq<u8>
    decreases n,
{
    if n == 0 {
        Seq::empty()
    } else {
        repeat(unit, (n - 1) as nat) + unit
    }
}

/// The text, filled up with `fill` to `width` characters; a text that is
/// wider stays as it is.
pub open spec fn padded(text: Seq<u8>, width: nat, fill: &str) -> Seq<u8> {
    if char_count(text) >= width {
        text
    } else {
        text + repeat(fill.spec_bytes(), (width - char_count(text)) as nat)
    }
}

/// The length of the longest line, in bytes.
pub open spec fn widest(lines: Seq<Seq<u8>>) -> nat
    decreases lines.len(),
{
    if lines.len() == 0 {
        0
    } else if lines.last().len() > widest(lines.drop_last()) {
        lines.last().len()
    } else {
        widest(lines.drop_last())
    }
}

/// The identifiers between double quotes, with a comma and a space between
/// one and the next.
pub open spec fn listed(ids: Seq<Seq<u8>>) -> Seq<u8>
    decreases ids.len(),
{
    if ids.len() == 0 {
        Seq::empty()
    } else if ids.len() == 1 {
        "\"".spec_bytes() + ids.last() + "\"".spec_bytes()
    } else {
        listed(ids.drop_last()) + ", ".spec_bytes() + "\"".spec_bytes() + ids.last()
            + "\"".spec_bytes()
    }
}

/// What a rule says of the other transactions: nothing where there is none,
/// else `lead` and their list between braces.
pub open spec fn bonus(lead: &str, ids: Seq<Seq<u8>>) -> Seq<u8> {
    if ids.len() == 0 {
        Seq::empty()
    } else {
        lead.spec_bytes() + "{".spec_bytes() + listed(ids) + "}".spec_bytes()
    }
}

/// The title of a rule: the label of the transaction and the bonus, between
/// square brackets.
pub open spec fn title(label: Seq<u8>, lead: &str, ids: Seq<Seq<u8>>) -> Seq<u8> {
    "[ ".spec_bytes() + label + bonus(lead, ids) + " ]".spec_bytes()
}

/// The blank margin of a box at the given depth: two columns, and four more
/// for each level.
pub open spec fn margin(depth: nat) -> Seq<u8> {
    "  ".spec_bytes() + repeat("    ".spec_bytes(), depth)
}

/// One line of a box, between its two borders.
pub open spec fn row(depth: nat, line: Seq<u8>, width: nat) -> Seq<u8> {
    margin(depth) + "│ ".spec_bytes() + padded(line, width, " ") + " │\n".spec_bytes()
}

/// The lines of a box.
pub open spec fn rows(depth: nat, lines: Seq<Seq<u8>>, width: nat) -> Seq<u8>
    decreases lines.len(),
{
    if lines.len() == 0 {
        Seq::empty()
    } else {
        rows(depth, lines.drop_last(), width) + row(depth, lines.last(), width)
    }
}

/// The box of a transaction, after an empty line: the top rule with the
/// label and the predecessors, the lines, and the bottom rule with the label
/// and the successors.
pub open spec fn framed(frame: FrameView, label: Seq<u8>) -> Seq<u8> {
    let width = widest(frame.lines);
    "\n".spec_bytes() + margin(frame.depth) + "┌─".spec_bytes() + padded(
        title(label, ", coming from ", frame.predecessors),
        width,
        "─",
    ) + "─┐\n".spec_bytes() + rows(frame.depth, frame.lines, width) + margin(frame.depth)
        + "└─".spec_bytes() + padded(
        title(label, ", flowing into ", frame.successors),
        width,
        "─",
    ) + "─┘\n".spec_bytes()
}

/// A transaction as it is shown.
#[derive(Clone, PartialEq, Eq, Debug)]
pub struct Frame {
    /// The queue identifier.
    pub id: Vec<u8>,
    /// How deep the transaction stands below the root of its thread.
    pub depth: usize,
    /// The lines of the transaction, in the order of their places.
    pub lines: Vec<Vec<u8>>,
    /// The transactions before it, in ascending order.
    pub predecessors: Vec<Vec<u8>>,
    /// The transactions after it, in ascending order.
    pub successors: Vec<Vec<u8>>,
}

/// The bytes of each text of a sequence.
pub open spec fn texts_view(texts: Seq<Vec<u8>>) -> Seq<Seq<u8>> {
    Seq::new(texts.len(), |i: int| texts[i]@)
}

impl View for Frame {
    type V = FrameView;

    open spec fn view(&self) -> FrameView {
        FrameView {
            id: self.id@,
            depth: self.depth as nat,
            lines: texts_view(self.lines@),
            predecessors: texts_view(self.predecessors@),
            successors: texts_view(self.successors@),
        }
    }
}

/// Appends the bytes of `text`.
pub fn put_bytes(out: &mut Vec<u8>, text: &[u8])
    ensures
        final(out)@ == old(out)@ + text@,
{
    let mut i: usize = 0;
    assert(out@ =~= old(out)@ + text@.take(0));
    while i < text.len()
        invariant
            i <= text@.len(),
            out@ == old(out)@ + text@.take(i as int),
        decreases text@.len() - i,
    {
        out.push(text[i]);
        i += 1;
        assert(out@ =~= old(out)@ + text@.take(i as int));
    }
    assert(text@.take(text@.len() as int) =~= text@);
}

/// Appends the bytes of `text`.
pub fn put(out: &mut Vec<u8>, text: &str)
    ensures
        final(out)@ == old(out)@ + text.spec_bytes(),
{
    put_bytes(out, text.as_bytes());
}

/// Appends `unit`, `n` times.
pub fn put_repeated(out: &mut Vec<u8>, unit: &str, n: usize)
    ensures
        final(out)@ == old(out)@ + repeat(unit.spec_bytes(), n as nat),
{
    let mut i: usize = 0;
    assert(out@ =~= old(out)@ + repeat(unit.spec_bytes(), 0));
    while i < n
        invariant
            i <= n,
            out@ == old(out)@ + repeat(unit.spec_bytes(), i as nat),
        decreases n - i,
    {
        put(out, unit);
        i += 1;
        assert(out@ =~= old(out)@ + repeat(unit.spec_bytes(), i as nat));
    }
}

/// The number of characters of a text.
pub fn count_chars(text: &[u8]) -> (r: usize)
    ensures
        r == char_count(text@),
{
    let mut n: usize = 0;
    let mut i: usize = 0;
    while i < text.len()
        invariant
            i <= text@.len(),
            n <= i,
            n == char_count(text@.take(i as int)),
        decreases text@.len() - i,
    {
        proof {
            assert(text@.take(i + 1).drop_last() =~= text@.take(i as int));
        }
        if !(text[i] >= 0x80 && text[i] < 0xc0) {
            n += 1;
        }
        i += 1;
    }
    assert(text@.take(text@.len() as int) =~= text@);
    n
}

/// Appends the text, filled up with `fill` to `width` characters.
pub fn put_padded(out: &mut Vec<u8>, text: &[u8], width: usize, fill: &str)
    ensures
        final(out)@ == old(out)@ + padded(text@, width as nat, fill),
{
    put_bytes(out, text);
    let n = count_chars(text);
    if n < width {
        put_repeated(out, fill, width - n);
        assert(out@ =~= old(out)@ + padded(text@, width as nat, fill));
    }
}

/// The length of the longest line, in bytes.
pub fn widest_of(lines: &Vec<Vec<u8>>) -> (r: usize)
    ensures
        r == widest(texts_view(lines@)),
{
    let mut width: usize = 0;
    let mut i: usize = 0;
    while i < lines.len()
        invariant
            i <= lines@.len(),
            width == widest(texts_view(lines@).take(i as int)),
        decreases lines@.len() - i,
    {
        proof {
            let all = texts_view(lines@);
            assert(all.take(i + 1).drop_last() =~= all.take(i as int));
            assert(all.take(i + 1).last() == lines@[i as int]@);
        }
        if lines[i].len() > width {
            width = lines[i].len();
        }
        i += 1;
    }
    assert(texts_view(lines@).take(lines@.len() as int) =~= texts_view(lines@));
    width
}

/// The title of a rule.
pub fn title_of(label: &[u8], lead: &str, ids: &Vec<Vec<u8>>) -> (r: Vec<u8>)
    ensures
        r@ == title(label@, lead, texts_view(ids@)),
{
    let mut r: Vec<u8> = Vec::new();
    put(&mut r, "[ ");
    put_bytes(&mut r, label);
    let ghost head = r@;
    if ids.len() > 0 {
        put(&mut r, lead);
        put(&mut r, "{");
        let ghost open = r@;
        let mut i: usize = 0;
        assert(r@ =~= open + listed(texts_view(ids@).take(0)));
        while i < ids.len()
            invariant
                i <= ids@.len(),
                r@ == open + listed(texts_view(ids@).take(i as int)),
            decreases ids@.len() - i,
        {
            proof {
                let all = texts_view(ids@);
                assert(all.take(i + 1).drop_last() =~= all.take(i as int));
                assert(all.take(i + 1).last() == ids@[i as int]@);
            }
            if i > 0 {
                put(&mut r, ", ");
            }
            put(&mut r, "\"");
            put_bytes(&mut r, ids[i].as_slice());
            put(&mut r, "\"");
            i += 1;
            assert(r@ =~= open + listed(texts_view(ids@).take(i as int)));
        }
        assert(texts_view(ids@).take(ids@.len() as int) =~= texts_view(ids@));
        put(&mut r, "}");
        assert(r@ =~= head + bonus(lead, texts_view(ids@)));
    } else {
        assert(r@ =~= head + bonus(lead, texts_view(ids@)));
    }
    put(&mut r, " ]");
    assert(r@ =~= title(label@, lead, texts_view(ids@)));
    r
}

/// Appends the blank margin of a box at the given depth.
pub fn put_margin(out: &mut Vec<u8>, depth: usize)
    ensures
        final(out)@ == old(out)@ + margin(depth as nat),
{
    put(out, "  ");
    put_repeated(out, "    ", depth);
    assert(out@ =~= old(out)@ + margin(depth as nat));
}

/// The box of a transaction, with `label` in its rules as the name of the
/// transaction.
pub fn render_frame(frame: &Frame, label: &[u8]) -> (r: Vec<u8>)
    ensures
        r@ == framed(frame@, label@),
{
    let width = widest_of(&frame.lines);
    let mut r: Vec<u8> = Vec::new();
    put(&mut r, "\n");
    put_margin(&mut r, frame.depth);
    put(&mut r, "┌─");
    let top = title_of(label, ", coming from ", &frame.predecessors);
    put_padded(&mut r, top.as_slice(), width, "─");
    put(&mut r, "─┐\n");
    let ghost head = r@;
    let mut i: usize = 0;
    assert(r@ =~= head + rows(frame@.depth, frame@.lines.take(0), width as nat));
    while i < frame.lines.len()
        invariant
            i <= frame.lines@.len(),
            r@ == head + rows(frame@.depth, frame@.lines.take(i as int), width as nat),
        decreases frame.lines@.len() - i,
    {
        proof {
            let all = frame@.lines;
            assert(all.take(i + 1).drop_last() =~= all.take(i as int));
            assert(all.take(i + 1).last() == frame.lines@[i as int]@);
        }
        let ghost prior = r@;
        put_margin(&mut r, frame.depth);
        put(&mut r, "│ ");
        put_padded(&mut r, frame.lines[i].as_slice(), width, " ");
        put(&mut r, " │\n");
        assert(r@ =~= prior + row(frame@.depth, frame.lines@[i as int]@, width as nat));
        i += 1;
        assert(r@ =~= head + rows(frame@.depth, frame@.lines.take(i as int), width as nat));
    }
    assert(frame@.lines.take(frame.lines@.len() as int) =~= frame@.lines);
    put_margin(&mut r, frame.depth);
    put(&mut r, "└─");
    let bottom = title_of(label, ", flowing into ", &frame.successors);
    put_padded(&mut r, bottom.as_slice(), width, "─");
    put(&mut r, "─┘\n");
    assert(r@ =~= framed(frame@, label@));
    r
}

} // verus!
