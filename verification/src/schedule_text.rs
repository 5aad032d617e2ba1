//! The text of the external scheduler, read as lines that are foreign to
//! the library and blocks that it owns.
//!
//! Blank lines part the text into paragraphs. A block starts at the first
//! marker line of a paragraph, which gives the job's id, and runs to the
//! paragraph's end: comment lines, of which the last name line gives the
//! job's name; exactly one entry line, which holds the recurrence and the
//! command; and more comment lines. The blank line that ends the paragraph
//! belongs to the block. Where what follows the first marker line of a
//! paragraph is not of this form, the lines are foreign. Every line that is
//! not part of a block is foreign and is kept as it is.

use crate::chars::{
    after_spaces, after_word, append_chars, blank, from_chars, has_prefix, is_blank, is_space,
    join_chars, join_with, lemma_join_split, skip_spaces, skip_word, slice_chars, split_chars,
    split_on, starts_with, to_chars,
};
use vstd::prelude::*;

verus! {

/// What opens the line that carries a job's id.
pub open spec fn id_tag() -> Seq<char> {
    "# JOB_ID:"@
}

/// What opens the line that carries a job's name.
pub open spec fn name_tag() -> Seq<char> {
    "# NAME:"@
}

/// What follows `tag` on a line that it opens.
pub open spec fn tagged(line: Seq<char>, tag: Seq<char>) -> Option<Seq<char>> {
    if has_prefix(line, tag) {
        Some(line.skip(tag.len() as int))
    } else {
        None
    }
}

/// The position behind the first `k` words of `line` from `i` on; the end of
/// the line where it has fewer.
pub open spec fn after_words(line: Seq<char>, i: int, k: nat) -> int
    decreases k,
{
    if k == 0 {
        i
    } else {
        after_words(line, skip_word(line, skip_spaces(line, i)), (k - 1) as nat)
    }
}

/// How many words of an entry line the recurrence takes: one where it is a
/// named shorthand, else five.
pub open spec fn recurrence_words(line: Seq<char>) -> nat {
    let start = skip_spaces(line, 0);
    if 0 <= start < line.len() && line[start] == '@' {
        1
    } else {
        5
    }
}

/// Where the recurrence of an entry line ends.
pub open spec fn recurrence_end(line: Seq<char>) -> int {
    after_words(line, 0, recurrence_words(line))
}

/// Whether `line` is an entry: neither blank nor a comment, a recurrence,
/// one space, and a command.
pub open spec fn is_entry(line: Seq<char>) -> bool {
    let p = recurrence_end(line);
    &&& line.len() > 0
    &&& line[0] != '#'
    &&& 0 < p < line.len()
    &&& line[p] == ' '
    &&& !is_blank(line.skip(p + 1))
}

/// Whether `line` is a comment: it starts with `#`.
pub open spec fn is_comment(line: Seq<char>) -> bool {
    line.len() > 0 && line[0] == '#'
}

/// Whether `line` is a marker line: the id tag opens it.
pub open spec fn is_marker(line: Seq<char>) -> bool {
    tagged(line, id_tag()) is Some
}

/// What follows `tag` on the last of `lines` that it opens.
pub open spec fn last_tagged(lines: Seq<Seq<char>>, tag: Seq<char>) -> Option<Seq<char>>
    decreases lines.len(),
{
    if lines.len() == 0 {
        None
    } else {
        match tagged(lines.last(), tag) {
            Some(rest) => Some(rest),
            None => last_tagged(lines.drop_last(), tag),
        }
    }
}

/// A block as plain values.
pub struct BlockView {
    /// The comment lines from the block's first marker line to its entry.
    pub head: Seq<Seq<char>>,
    /// The entry line up to the end of its recurrence.
    pub schedule_field_text: Seq<char>,
    /// The entry line behind the space that follows its recurrence.
    pub wrapped_command: Seq<char>,
    /// The comment lines behind the entry.
    pub tail: Seq<Seq<char>>,
    /// The blank line that ends the block; none where the text ends with
    /// the block.
    pub gap: Option<Seq<char>>,
}

/// An item of the text as plain values.
pub enum LineView {
    Foreign(Seq<char>),
    Block(BlockView),
}

impl BlockView {
    /// The id of the job that owns the block: that of the marker line that
    /// the block starts with.
    pub open spec fn job_id(self) -> Option<Seq<char>> {
        if self.head.len() > 0 {
            tagged(self.head[0], id_tag())
        } else {
            None
        }
    }

    /// The name that the block gives its job: that of the last name line
    /// before the entry.
    pub open spec fn name(self) -> Option<Seq<char>> {
        last_tagged(self.head, name_tag())
    }

    /// The entry line of the block.
    pub open spec fn entry(self) -> Seq<char> {
        self.schedule_field_text + seq![' '] + self.wrapped_command
    }

    /// How many lines the block takes.
    pub open spec fn height(self) -> int {
        self.head.len() + 1 + self.tail.len() + if self.gap is Some {
            1int
        } else {
            0
        }
    }

    /// The lines of the block.
    pub open spec fn lines(self) -> Seq<Seq<char>> {
        self.head + seq![self.entry()] + self.tail + match self.gap {
            Some(g) => seq![g],
            None => Seq::empty(),
        }
    }
}

impl LineView {
    /// The lines of the item.
    pub open spec fn lines(self) -> Seq<Seq<char>> {
        match self {
            LineView::Foreign(text) => seq![text],
            LineView::Block(b) => b.lines(),
        }
    }
}

/// How many lines from line `i` on are not blank, one after the other: what
/// is left of the paragraph at line `i`.
pub open spec fn para_len(lines: Seq<Seq<char>>, i: int) -> int
    decreases lines.len() - i,
{
    if 0 <= i < lines.len() && !is_blank(lines[i]) {
        1 + para_len(lines, i + 1)
    } else {
        0
    }
}

/// The first position at or after `k` of a line that is no comment, or the
/// end.
pub open spec fn first_plain(lines: Seq<Seq<char>>, k: int) -> int
    decreases lines.len() - k,
{
    if 0 <= k < lines.len() && is_comment(lines[k]) {
        first_plain(lines, k + 1)
    } else {
        k
    }
}

/// Whether the lines from `k` on are comments.
pub open spec fn comments_from(lines: Seq<Seq<char>>, k: int) -> bool {
    forall|j: int| k <= j < lines.len() ==> is_comment(#[trigger] lines[j])
}

/// The block that the lines `part` make, with `gap` as the blank line behind
/// them: the first line is a marker line, one line is an entry, and every
/// other line is a comment.
pub open spec fn block_of(part: Seq<Seq<char>>, gap: Option<Seq<char>>) -> Option<BlockView> {
    let p = first_plain(part, 0);
    if part.len() > 0 && is_marker(part[0]) && 0 <= p < part.len() && is_entry(part[p])
        && comments_from(part, p + 1) {
        Some(
            BlockView {
                head: part.take(p),
                schedule_field_text: part[p].take(recurrence_end(part[p])),
                wrapped_command: part[p].skip(recurrence_end(part[p]) + 1),
                tail: part.skip(p + 1),
                gap,
            },
        )
    } else {
        None
    }
}

/// What is left of the paragraph at line `i`.
pub open spec fn para_at(lines: Seq<Seq<char>>, i: int) -> Seq<Seq<char>> {
    lines.subrange(i, i + para_len(lines, i))
}

/// The blank line that ends the paragraph at line `i`; none where the text
/// ends with the paragraph.
pub open spec fn gap_at(lines: Seq<Seq<char>>, i: int) -> Option<Seq<char>> {
    if i + para_len(lines, i) < lines.len() {
        Some(lines[i + para_len(lines, i)])
    } else {
        None
    }
}

/// The block that starts at line `i` of `lines`, if one does.
pub open spec fn block_at(lines: Seq<Seq<char>>, i: int) -> Option<BlockView> {
    if 0 <= i < lines.len() && 0 <= para_len(lines, i) && i + para_len(lines, i) <= lines.len() {
        block_of(para_at(lines, i), gap_at(lines, i))
    } else {
        None
    }
}

/// Each of `lines` as a foreign line.
pub open spec fn foreigns(lines: Seq<Seq<char>>) -> Seq<LineView> {
    lines.map_values(|l: Seq<char>| LineView::Foreign(l))
}

/// The items of `lines` from line `i` on. A line that is no marker line is
/// foreign. At a marker line a block starts; where none does, what is left
/// of the paragraph is foreign.
pub open spec fn items_from(lines: Seq<Seq<char>>, i: int) -> Seq<LineView>
    decreases lines.len() - i,
{
    if 0 <= i < lines.len() {
        if is_marker(lines[i]) {
            match block_at(lines, i) {
                Some(b) => seq![LineView::Block(b)] + items_from(lines, i + b.height()),
                None => {
                    let m = if 1 <= para_len(lines, i) <= lines.len() - i {
                        para_len(lines, i)
                    } else {
                        1
                    };
                    foreigns(lines.subrange(i, i + m)) + items_from(lines, i + m)
                },
            }
        } else {
            seq![LineView::Foreign(lines[i])] + items_from(lines, i + 1)
        }
    } else {
        Seq::empty()
    }
}

/// The items of a text.
pub open spec fn parse_text(text: Seq<char>) -> Seq<LineView> {
    items_from(split_on(text, '\n'), 0)
}

/// The lines of a row of items.
pub open spec fn lines_of(items: Seq<LineView>) -> Seq<Seq<char>>
    decreases items.len(),
{
    if items.len() == 0 {
        Seq::empty()
    } else {
        lines_of(items.drop_last()) + items.last().lines()
    }
}

/// The text of a row of items: their lines, with a line feed between
/// neighbours.
pub open spec fn render_text(items: Seq<LineView>) -> Seq<char> {
    join_with(lines_of(items), '\n')
}

/// The lines of two rows of items in a row are the lines of the first and
/// then those of the second.
pub proof fn lemma_lines_of_add(a: Seq<LineView>, b: Seq<LineView>)
    ensures
        lines_of(a + b) == lines_of(a) + lines_of(b),
    decreases b.len(),
{
    if b.len() == 0 {
        assert(a + b == a);
        assert(lines_of(a) + lines_of(b) == lines_of(a));
    } else {
        lemma_lines_of_add(a, b.drop_last());
        assert((a + b).drop_last() == a + b.drop_last());
        assert((a + b).last() == b.last());
        assert(lines_of(a) + lines_of(b.drop_last()) + b.last().lines() == lines_of(a) + (lines_of(
            b.drop_last(),
        ) + b.last().lines()));
    }
}

/// A row of one item has the lines of that item.
pub proof fn lemma_lines_of_one(x: LineView)
    ensures
        lines_of(seq![x]) == x.lines(),
{
    assert(seq![x].drop_last() == Seq::<LineView>::empty());
    assert(lines_of(Seq::<LineView>::empty()) + x.lines() == x.lines());
}

/// Foreign lines have themselves as their lines.
pub proof fn lemma_lines_of_foreigns(lines: Seq<Seq<char>>)
    ensures
        lines_of(foreigns(lines)) == lines,
    decreases lines.len(),
{
    if lines.len() > 0 {
        lemma_lines_of_foreigns(lines.drop_last());
        assert(foreigns(lines).drop_last() =~= foreigns(lines.drop_last()));
        assert(foreigns(lines).last() == LineView::Foreign(lines.last()));
        assert(lines.drop_last() + seq![lines.last()] =~= lines);
    } else {
        assert(lines =~= Seq::<Seq<char>>::empty());
    }
}

/// What is left of a paragraph lies within the text, holds no blank line,
/// and is followed by a blank line or by the end of the text.
pub proof fn lemma_para(lines: Seq<Seq<char>>, i: int)
    requires
        0 <= i <= lines.len(),
    ensures
        0 <= para_len(lines, i),
        i + para_len(lines, i) <= lines.len(),
        forall|j: int| i <= j < i + para_len(lines, i) ==> !is_blank(#[trigger] lines[j]),
        i + para_len(lines, i) < lines.len() ==> is_blank(lines[i + para_len(lines, i)]),
        i < lines.len() && !is_blank(lines[i]) ==> para_len(lines, i) > 0,
    decreases lines.len() - i,
{
    if i < lines.len() && !is_blank(lines[i]) {
        lemma_para(lines, i + 1);
    }
}

/// Lines without a blank one, followed by a blank line or by the end of the
/// text, are what is left of a paragraph.
pub proof fn lemma_para_is(lines: Seq<Seq<char>>, i: int, m: int)
    requires
        0 <= i,
        0 <= m,
        i + m <= lines.len(),
        forall|j: int| i <= j < i + m ==> !is_blank(#[trigger] lines[j]),
        i + m < lines.len() ==> is_blank(lines[i + m]),
    ensures
        para_len(lines, i) == m,
    decreases m,
{
    if m > 0 {
        assert(!is_blank(lines[i]));
        lemma_para_is(lines, i + 1, m - 1);
    }
}

/// Up to the first line that is no comment, every line is a comment.
pub proof fn lemma_first_plain(lines: Seq<Seq<char>>, k: int)
    requires
        0 <= k <= lines.len(),
    ensures
        k <= first_plain(lines, k) <= lines.len(),
        forall|j: int| k <= j < first_plain(lines, k) ==> is_comment(#[trigger] lines[j]),
        first_plain(lines, k) < lines.len() ==> !is_comment(lines[first_plain(lines, k)]),
    decreases lines.len() - k,
{
    if k < lines.len() && is_comment(lines[k]) {
        lemma_first_plain(lines, k + 1);
    }
}

/// A marker line is a comment and not blank.
pub proof fn lemma_marker(line: Seq<char>)
    requires
        is_marker(line),
    ensures
        is_comment(line),
        !is_blank(line),
{
    reveal_strlit("# JOB_ID:");
    assert(line.subrange(0, id_tag().len() as int)[0] == line[0]);
    assert(!is_space(line[0]));
}

/// An entry is neither blank nor a comment.
pub proof fn lemma_entry_not_blank(line: Seq<char>)
    requires
        is_entry(line),
    ensures
        !is_blank(line),
        !is_comment(line),
{
    let p = recurrence_end(line);
    let rest = line.skip(p + 1);
    if is_blank(line) {
        assert forall|c: int| 0 <= c < rest.len() implies is_space(#[trigger] rest[c]) by {
            assert(rest[c] == line[p + 1 + c]);
        }
    }
}

/// A block that is read at line `i` takes up exactly the lines from `i` on
/// that it is made of: what is left of the paragraph, and the blank line
/// that ends it.
pub proof fn lemma_block_lines(lines: Seq<Seq<char>>, i: int)
    requires
        block_at(lines, i) is Some,
    ensures
        block_at(lines, i)->0.height() >= 2,
        i + block_at(lines, i)->0.height() <= lines.len(),
        block_at(lines, i)->0.lines() == lines.subrange(i, i + block_at(lines, i)->0.height()),
        block_at(lines, i)->0.head + seq![block_at(lines, i)->0.entry()] + block_at(
            lines,
            i,
        )->0.tail == para_at(lines, i),
        block_at(lines, i)->0.gap == gap_at(lines, i),
        block_at(lines, i)->0.job_id() is Some,
{
    let b = block_at(lines, i)->0;
    let part = para_at(lines, i);
    let p = first_plain(part, 0);
    lemma_para(lines, i);
    lemma_first_plain(part, 0);
    lemma_marker(part[0]);
    let entry = part[p];
    assert(b.entry() =~= entry);
    assert(b.head + seq![b.entry()] + b.tail =~= part);
    assert(b.lines() =~= lines.subrange(i, i + b.height()));
    assert(b.head[0] == part[0]);
}

/// How many lines the first item from line `i` on takes.
pub open spec fn first_height(lines: Seq<Seq<char>>, i: int) -> int {
    if is_marker(lines[i]) {
        match block_at(lines, i) {
            Some(b) => b.height(),
            None => para_len(lines, i),
        }
    } else {
        1
    }
}

/// The items that the first lines from line `i` on make: a block, the
/// foreign lines of what is left of a paragraph, or one foreign line.
pub open spec fn first_items(lines: Seq<Seq<char>>, i: int) -> Seq<LineView> {
    if is_marker(lines[i]) {
        match block_at(lines, i) {
            Some(b) => seq![LineView::Block(b)],
            None => foreigns(para_at(lines, i)),
        }
    } else {
        seq![LineView::Foreign(lines[i])]
    }
}

/// The items from line `i` on are the first of them and those from behind
/// these on; the first take up the lines that they are made of.
pub proof fn lemma_items_step(lines: Seq<Seq<char>>, i: int)
    requires
        0 <= i < lines.len(),
    ensures
        1 <= first_height(lines, i) <= lines.len() - i,
        items_from(lines, i) == first_items(lines, i) + items_from(
            lines,
            i + first_height(lines, i),
        ),
        lines_of(first_items(lines, i)) == lines.subrange(i, i + first_height(lines, i)),
{
    lemma_para(lines, i);
    if is_marker(lines[i]) {
        lemma_marker(lines[i]);
        match block_at(lines, i) {
            Some(b) => {
                lemma_block_lines(lines, i);
                lemma_lines_of_one(LineView::Block(b));
            },
            None => {
                lemma_lines_of_foreigns(para_at(lines, i));
            },
        }
    } else {
        lemma_lines_of_one(LineView::Foreign(lines[i]));
        assert(seq![lines[i]] =~= lines.subrange(i, i + 1));
    }
}

/// The items of some lines hold those lines, in order.
pub proof fn lemma_items_keep_lines(lines: Seq<Seq<char>>, i: int)
    requires
        0 <= i <= lines.len(),
    ensures
        lines_of(items_from(lines, i)) == lines.skip(i),
    decreases lines.len() - i,
{
    if i < lines.len() {
        lemma_items_step(lines, i);
        let h = first_height(lines, i);
        lemma_items_keep_lines(lines, i + h);
        lemma_lines_of_add(first_items(lines, i), items_from(lines, i + h));
        assert(lines.subrange(i, i + h) + lines.skip(i + h) =~= lines.skip(i));
    } else {
        assert(lines.skip(i) =~= Seq::<Seq<char>>::empty());
    }
}

/// Reading a text and writing the items out again gives the text back.
pub proof fn lemma_render_parse(text: Seq<char>)
    ensures
        render_text(parse_text(text)) == text,
{
    let lines = split_on(text, '\n');
    lemma_items_keep_lines(lines, 0);
    assert(lines.skip(0) =~= lines);
    lemma_join_split(text, '\n');
}

/// A block of the external text: the comment lines from its first marker
/// line to its entry, the recurrence fields and the wrapped command of its
/// entry, each as the text has them, the comment lines behind the entry, and
/// the blank line that ends the block where there is one.
#[derive(Debug, Clone, PartialEq, Eq)]
pub struct Block {
    /// The comment lines from the block's first marker line to its entry.
    pub head: Vec<String>,
    /// The entry line up to the end of its recurrence.
    pub schedule_field_text: String,
    /// The entry line behind the space that follows its recurrence.
    pub wrapped_command: String,
    /// The comment lines behind the entry.
    pub tail: Vec<String>,
    /// The blank line that ends the block; none where the text ends with
    /// the block.
    pub gap: Option<String>,
}

/// An item of the external text.
#[derive(Debug, Clone, PartialEq, Eq)]
pub enum Line {
    /// A line that the library does not own, as it stands.
    Foreign(String),
    /// A block that belongs to a job.
    Block(Block),
}

impl View for Block {
    type V = BlockView;

    open spec fn view(&self) -> BlockView {
        BlockView {
            head: self.head.deep_view(),
            schedule_field_text: self.schedule_field_text@,
            wrapped_command: self.wrapped_command@,
            tail: self.tail.deep_view(),
            gap: match self.gap {
                Some(g) => Some(g@),
                None => None,
            },
        }
    }
}

impl View for Line {
    type V = LineView;

    open spec fn view(&self) -> LineView {
        match self {
            Line::Foreign(text) => LineView::Foreign(text@),
            Line::Block(b) => LineView::Block(b@),
        }
    }
}

/// The views of a row of items.
pub open spec fn line_views(items: Seq<Line>) -> Seq<LineView> {
    items.map_values(|l: Line| l@)
}

/// What follows `tag` on `line`, where `tag` opens it.
fn read_tagged(line: &[char], tag: &[char]) -> (r: Option<String>)
    ensures
        r.deep_view() == tagged(line@, tag@),
{
    if starts_with(line, tag) {
        let rest = slice_chars(line, tag.len(), line.len());
        Some(from_chars(rest.as_slice()))
    } else {
        None
    }
}

/// Where the recurrence of the entry `line` ends, where `line` is an entry.
pub fn entry_end(line: &[char]) -> (r: Option<usize>)
    ensures
        match r {
            Some(p) => is_entry(line@) && p == recurrence_end(line@) && 0 < p < line.len(),
            None => !is_entry(line@),
        },
{
    let start = after_spaces(line, 0);
    let k: usize = if start < line.len() && line[start] == '@' {
        1
    } else {
        5
    };
    let mut p: usize = 0;
    let mut done: usize = 0;
    while done < k
        invariant
            done <= k,
            p <= line.len(),
            after_words(line@, p as int, (k - done) as nat) == after_words(line@, 0, k as nat),
        decreases k - done,
    {
        let a = after_spaces(line, p);
        p = after_word(line, a);
        done += 1;
    }
    if line.len() == 0 || line[0] == '#' || p == 0 || p >= line.len() || line[p] != ' ' {
        return None;
    }
    let rest = slice_chars(line, p + 1, line.len());
    if blank(rest.as_slice()) {
        None
    } else {
        Some(p)
    }
}

/// What follows `tag` on the last of `lines` that it opens.
pub fn find_tagged(lines: &Vec<String>, tag: &str) -> (r: Option<String>)
    ensures
        r.deep_view() == last_tagged(lines.deep_view(), tag@),
{
    let ghost all = lines.deep_view();
    let mark = to_chars(tag);
    let mut k: usize = lines.len();
    assert(all.take(k as int) == all);
    while k > 0
        invariant
            k <= lines.len(),
            all == lines.deep_view(),
            mark@ == tag@,
            last_tagged(all, tag@) == last_tagged(all.take(k as int), tag@),
        decreases k,
    {
        let line = to_chars(lines[k - 1].as_str());
        assert(all.take(k as int).last() == lines@[k - 1]@);
        assert(all.take(k as int).drop_last() == all.take(k - 1));
        let found = read_tagged(line.as_slice(), mark.as_slice());
        if found.is_some() {
            return found;
        }
        k -= 1;
    }
    None
}

impl Block {
    /// The id of the job that owns the block.
    pub fn job_id(&self) -> (r: Option<String>)
        ensures
            r.deep_view() == self@.job_id(),
    {
        if self.head.len() > 0 {
            assert(self@.head[0] == self.head@[0]@);
            let first = to_chars(self.head[0].as_str());
            read_tagged(first.as_slice(), to_chars("# JOB_ID:").as_slice())
        } else {
            None
        }
    }

    /// The name that the block gives its job.
    pub fn name(&self) -> (r: Option<String>)
        ensures
            r.deep_view() == self@.name(),
    {
        find_tagged(&self.head, "# NAME:")
    }
}

/// Tells whether `line` is a comment.
pub fn comment(line: &[char]) -> (r: bool)
    ensures
        r == is_comment(line@),
{
    line.len() > 0 && line[0] == '#'
}

/// Tells whether `line` is a marker line.
pub fn marker(line: &[char]) -> (r: bool)
    ensures
        r == is_marker(line@),
{
    starts_with(line, to_chars("# JOB_ID:").as_slice())
}

/// Counts the lines from line `i` on that are not blank, one after the
/// other.
pub fn paragraph_len(lines: &Vec<Vec<char>>, i: usize) -> (m: usize)
    requires
        i <= lines.len(),
    ensures
        m == para_len(lines.deep_view(), i as int),
        i + m <= lines.len(),
{
    let ghost all = lines.deep_view();
    let mut k: usize = i;
    proof {
        lemma_para(all, i as int);
    }
    loop
        invariant
            i <= k <= lines.len(),
            all == lines.deep_view(),
            para_len(all, i as int) == (k - i) + para_len(all, k as int),
        decreases lines.len() - k,
    {
        if k >= lines.len() {
            return k - i;
        }
        assert(all[k as int] == lines@[k as int]@);
        if blank(lines[k].as_slice()) {
            return k - i;
        }
        k += 1;
    }
}

/// The lines from `from` up to `to`, as texts.
fn texts_between(lines: &Vec<Vec<char>>, from: usize, to: usize) -> (r: Vec<String>)
    requires
        from <= to <= lines.len(),
    ensures
        r.deep_view() == lines.deep_view().subrange(from as int, to as int),
{
    let mut r: Vec<String> = Vec::new();
    let mut k: usize = from;
    while k < to
        invariant
            from <= k <= to <= lines.len(),
            r.len() == k - from,
            forall|j: int| 0 <= j < r.len() ==> (#[trigger] r@[j])@ == lines@[from + j]@,
        decreases to - k,
    {
        r.push(from_chars(lines[k].as_slice()));
        k += 1;
    }
    assert forall|j: int| 0 <= j < r.len() implies #[trigger] r.deep_view()[j]
        == lines.deep_view().subrange(from as int, to as int)[j] by {
        assert(r.deep_view()[j] == r@[j]@);
        assert(lines.deep_view()[from + j] == lines@[from + j]@);
    }
    assert(r.deep_view() =~= lines.deep_view().subrange(from as int, to as int));
    r
}

/// Reads the block that starts at line `i` of `lines`, if one does.
pub fn read_block(lines: &Vec<Vec<char>>, i: usize) -> (r: Option<Block>)
    ensures
        match r {
            Some(b) => block_at(lines.deep_view(), i as int) == Some(b@),
            None => block_at(lines.deep_view(), i as int) is None,
        },
{
    let n = lines.len();
    if i >= n {
        return None;
    }
    let ghost all = lines.deep_view();
    let m = paragraph_len(lines, i);
    let ghost part = para_at(all, i as int);
    proof {
        lemma_para(all, i as int);
    }
    if m == 0 {
        return None;
    }
    assert(part[0] == lines@[i as int]@);
    if !marker(lines[i].as_slice()) {
        return None;
    }
    let mut p: usize = 0;
    while p < m && comment(lines[i + p].as_slice())
        invariant
            p <= m,
            i + m <= lines.len(),
            part == lines.deep_view().subrange(i as int, i + m),
            first_plain(part, 0) == first_plain(part, p as int),
        decreases m - p,
    {
        assert(part[p as int] == lines@[i + p]@);
        p += 1;
    }
    assert(p < m ==> part[p as int] == lines@[i + p]@);
    if p >= m {
        return None;
    }
    let entry = lines[i + p].as_slice();
    let end = match entry_end(entry) {
        Some(end) => end,
        None => {
            return None;
        },
    };
    assert(first_plain(part, 0) == p);
    let mut k: usize = p + 1;
    while k < m
        invariant
            p < k <= m,
            i + m <= lines.len(),
            i < lines.len(),
            all == lines.deep_view(),
            m == para_len(all, i as int),
            part == para_at(all, i as int),
            part == lines.deep_view().subrange(i as int, i + m),
            first_plain(part, 0) == p,
            forall|j: int| p < j < k ==> is_comment(#[trigger] part[j]),
        decreases m - k,
    {
        assert(part[k as int] == lines@[i + k]@);
        if !comment(lines[i + k].as_slice()) {
            assert(!comments_from(part, p + 1));
            return None;
        }
        k += 1;
    }
    let mut gap: Option<String> = None;
    if i + m < n {
        assert(all[i + m] == lines@[i + m]@);
        gap = Some(from_chars(lines[i + m].as_slice()));
    }
    let head = texts_between(lines, i, i + p);
    let tail = texts_between(lines, i + p + 1, i + m);
    let schedule_field_text = from_chars(slice_chars(entry, 0, end).as_slice());
    let wrapped_command = from_chars(slice_chars(entry, end + 1, entry.len()).as_slice());
    let b = Block { head, schedule_field_text, wrapped_command, tail, gap };
    proof {
        assert(b@.head =~= part.take(p as int));
        assert(b@.tail =~= part.skip(p + 1));
    }
    Some(b)
}

/// How many lines the block takes.
pub fn block_height(b: &Block) -> (h: usize)
    requires
        b@.height() <= usize::MAX,
    ensures
        h == b@.height(),
{
    let gapped: usize = if b.gap.is_some() {
        1
    } else {
        0
    };
    b.head.len() + 1 + b.tail.len() + gapped
}

/// Reads the external text: its foreign lines and its blocks, in order.
pub fn parse(text: &str) -> (items: Vec<Line>)
    ensures
        line_views(items@) == parse_text(text@),
{
    let chars = to_chars(text);
    let lines = split_chars(chars.as_slice(), '\n');
    let ghost all = lines.deep_view();
    let mut items: Vec<Line> = Vec::new();
    let mut i: usize = 0;
    assert(line_views(items@) =~= Seq::<LineView>::empty());
    while i < lines.len()
        invariant
            i <= lines.len(),
            all == lines.deep_view(),
            line_views(items@) + items_from(all, i as int) == items_from(all, 0),
        decreases lines.len() - i,
    {
        let ghost before = line_views(items@);
        assert(all[i as int] == lines@[i as int]@);
        proof {
            lemma_items_step(all, i as int);
        }
        if marker(lines[i].as_slice()) {
            proof {
                lemma_marker(all[i as int]);
                lemma_para(all, i as int);
            }
            match read_block(&lines, i) {
                Some(b) => {
                    proof {
                        lemma_block_lines(all, i as int);
                    }
                    let h = block_height(&b);
                    let ghost view = LineView::Block(b@);
                    items.push(Line::Block(b));
                    assert(line_views(items@) =~= before.push(view));
                    assert(before.push(view) + items_from(all, i + h) =~= before + (seq![view]
                        + items_from(all, i + h)));
                    i = i + h;
                },
                None => {
                    let m = paragraph_len(&lines, i);
                    let ghost part = para_at(all, i as int);
                    let mut k: usize = 0;
                    while k < m
                        invariant
                            k <= m,
                            i + m <= lines.len(),
                            all == lines.deep_view(),
                            part == all.subrange(i as int, i + m),
                            line_views(items@) == before + foreigns(part.take(k as int)),
                        decreases m - k,
                    {
                        let ghost so_far = line_views(items@);
                        assert(all[i + k] == lines@[i + k]@);
                        items.push(Line::Foreign(from_chars(lines[i + k].as_slice())));
                        assert(line_views(items@) =~= so_far.push(LineView::Foreign(all[i + k])));
                        assert(foreigns(part.take(k + 1)) =~= foreigns(part.take(k as int)).push(
                            LineView::Foreign(all[i + k]),
                        ));
                        k += 1;
                    }
                    assert(part.take(m as int) == part);
                    assert((before + foreigns(part)) + items_from(all, i + m) =~= before + (
                    foreigns(part) + items_from(all, i + m)));
                    i = i + m;
                },
            }
        } else {
            let ghost view = LineView::Foreign(all[i as int]);
            items.push(Line::Foreign(from_chars(lines[i].as_slice())));
            assert(line_views(items@) =~= before.push(view));
            assert(before.push(view) + items_from(all, i + 1) =~= before + (seq![view]
                + items_from(all, i + 1)));
            i = i + 1;
        }
    }
    assert(line_views(items@) + Seq::<LineView>::empty() =~= line_views(items@));
    items
}

/// Adds `texts` to `lines`.
fn push_texts(lines: &mut Vec<Vec<char>>, texts: &Vec<String>)
    ensures
        final(lines).deep_view() == old(lines).deep_view() + texts.deep_view(),
{
    let ghost start = lines.deep_view();
    let mut k: usize = 0;
    assert(texts.deep_view().take(0) =~= Seq::<Seq<char>>::empty());
    assert(start + Seq::<Seq<char>>::empty() =~= start);
    while k < texts.len()
        invariant
            k <= texts.len(),
            lines.deep_view() == start + texts.deep_view().take(k as int),
        decreases texts.len() - k,
    {
        let ghost before = lines.deep_view();
        let line = to_chars(texts[k].as_str());
        let ghost view = line@;
        lines.push(line);
        assert(lines.deep_view() =~~= before.push(view));
        assert(texts.deep_view().take(k + 1) =~= texts.deep_view().take(k as int).push(view));
        k += 1;
    }
    assert(texts.deep_view().take(texts.len() as int) == texts.deep_view());
}

/// The entry line of `b`.
pub fn entry_line(b: &Block) -> (r: Vec<char>)
    ensures
        r@ == b@.entry(),
{
    let mut entry = to_chars(b.schedule_field_text.as_str());
    entry.push(' ');
    append_chars(&mut entry, to_chars(b.wrapped_command.as_str()).as_slice());
    assert(entry@ =~= b@.entry());
    entry
}

/// Adds the lines of `b` to `lines`.
fn push_block_lines(lines: &mut Vec<Vec<char>>, b: &Block)
    ensures
        final(lines).deep_view() == old(lines).deep_view() + b@.lines(),
{
    let ghost start = lines.deep_view();
    push_texts(lines, &b.head);
    let ghost headed = lines.deep_view();
    let entry = entry_line(b);
    let ghost entry_view = entry@;
    lines.push(entry);
    assert(lines.deep_view() =~~= headed.push(entry_view));
    push_texts(lines, &b.tail);
    let ghost gapped = lines.deep_view();
    match &b.gap {
        Some(g) => {
            let gap_line = to_chars(g.as_str());
            let ghost gap_view = gap_line@;
            lines.push(gap_line);
            assert(lines.deep_view() =~~= gapped.push(gap_view));
        },
        None => {},
    }
    assert(lines.deep_view() =~~= start + b@.lines());
}

/// Writes a row of items as text: their lines, with a line feed between
/// neighbours.
pub fn render(items: &Vec<Line>) -> (text: String)
    ensures
        text@ == render_text(line_views(items@)),
{
    let mut lines: Vec<Vec<char>> = Vec::new();
    let mut k: usize = 0;
    assert(line_views(items@).take(0) =~= Seq::<LineView>::empty());
    assert(lines.deep_view() =~= Seq::<Seq<char>>::empty());
    while k < items.len()
        invariant
            k <= items.len(),
            lines.deep_view() == lines_of(line_views(items@).take(k as int)),
        decreases items.len() - k,
    {
        let ghost next = line_views(items@).take(k + 1);
        assert(next.drop_last() == line_views(items@).take(k as int));
        assert(next.last() == items@[k as int]@);
        let ghost before = lines.deep_view();
        match &items[k] {
            Line::Foreign(text) => {
                let line = to_chars(text.as_str());
                let ghost view = line@;
                lines.push(line);
                assert(lines.deep_view() =~~= before + seq![view]);
            },
            Line::Block(b) => {
                push_block_lines(&mut lines, b);
            },
        }
        k += 1;
    }
    assert(line_views(items@).take(items.len() as int) == line_views(items@));
    from_chars(join_chars(&lines, '\n').as_slice())
}

} // verus!
