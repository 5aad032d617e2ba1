//! Bringing the external text in line with one job: the job's old block
//! leaves, and where the job is active a new one is added at the end.
//! Nothing else in the text is touched.

use crate::chars::{
    append_chars, blank, is_blank, is_space, join_with, lemma_split_join, lemma_split_pieces,
    split_on, to_chars,
};
use crate::error::concat;
use crate::job::{clone_text, CronJob, JobView};
use crate::schedule_text::{
    block_at, entry_end, entry_line, first_height, first_items, first_plain, foreigns, gap_at,
    id_tag, is_comment, is_entry, is_marker, items_from, lemma_entry_not_blank,
    lemma_items_keep_lines, lemma_items_step, lemma_lines_of_add, lemma_lines_of_one,
    lemma_marker, lemma_para, lemma_para_is, lemma_render_parse, line_views, lines_of, name_tag,
    para_at, para_len, parse, parse_text, recurrence_end, render, render_text, Block, BlockView,
    Line, LineView,
};
use vstd::prelude::*;
use vstd::string::StringExecFns;

verus! {

/// Whether `item` is a block of the job `id`.
pub open spec fn is_block_of(item: LineView, id: Seq<char>) -> bool {
    item matches LineView::Block(b) && b.job_id() == Some(id)
}

/// The items that are not blocks of the job `id`.
pub open spec fn others(id: Seq<char>) -> spec_fn(LineView) -> bool {
    |item: LineView| !is_block_of(item, id)
}

/// `items` without the blocks of the job `id`.
pub open spec fn without_job(items: Seq<LineView>, id: Seq<char>) -> Seq<LineView> {
    items.filter(others(id))
}

/// The command as it stands in an entry: its output and its errors go to the
/// file `log_path`.
pub open spec fn wrapped(command: Seq<char>, log_path: Seq<char>) -> Seq<char> {
    command + " > '"@ + log_path + "' 2>&1"@
}

/// The block that stands for an active job: a marker line with its id, a
/// name line, which is always there, its entry, and an empty line that
/// closes it.
pub open spec fn block_for(job: JobView, log_path: Seq<char>) -> BlockView {
    BlockView {
        head: seq![
            id_tag() + job.id,
            name_tag() + match job.name {
                Some(n) => n,
                None => Seq::empty(),
            },
        ],
        schedule_field_text: job.schedule,
        wrapped_command: wrapped(job.command, log_path),
        tail: Seq::empty(),
        gap: Some(Seq::empty()),
    }
}

/// Whether a row of items ends in a line that is not blank.
pub open spec fn ends_open(items: Seq<LineView>) -> bool {
    items.len() > 0 && !is_blank(items.last().lines().last())
}

/// What is added to the kept items for the job: nothing where it is not
/// active; else its block, after an empty line where the items end in a line
/// that is not blank.
pub open spec fn added_for(kept: Seq<LineView>, job: JobView, log_path: Seq<char>) -> Seq<
    LineView,
> {
    if !job.is_active {
        Seq::empty()
    } else if ends_open(kept) {
        seq![LineView::Foreign(Seq::empty()), LineView::Block(block_for(job, log_path))]
    } else {
        seq![LineView::Block(block_for(job, log_path))]
    }
}

/// The items after the job `job` has been brought in: every block of the job
/// is gone, and what the job asks for stands at the end.
pub open spec fn reconciled(items: Seq<LineView>, job: JobView, log_path: Seq<char>) -> Seq<
    LineView,
> {
    without_job(items, job.id) + added_for(without_job(items, job.id), job, log_path)
}

/// The text after the job `job` has been brought in.
pub open spec fn reconciled_text(text: Seq<char>, job: JobView, log_path: Seq<char>) -> Seq<
    char,
> {
    render_text(reconciled(parse_text(text), job, log_path))
}

/// Whether `items` hold a block of the job `id`.
pub open spec fn has_block_of(items: Seq<LineView>, id: Seq<char>) -> bool {
    exists|k: int| 0 <= k < items.len() && is_block_of(#[trigger] items[k], id)
}

/// The command `command` with its output and its errors sent to `log_path`.
pub fn wrap_command(command: &str, log_path: &str) -> (r: String)
    ensures
        r@ == wrapped(command@, log_path@),
{
    let mut r = concat(command, " > '");
    r.append(log_path);
    r.append("' 2>&1");
    r
}

/// The block that stands for `job`.
pub fn job_block(job: &CronJob, log_path: &str) -> (b: Block)
    ensures
        b@ == block_for(job@, log_path@),
{
    let name = match &job.name {
        Some(n) => n.clone(),
        None => String::new(),
    };
    let mut head: Vec<String> = Vec::new();
    head.push(concat("# JOB_ID:", job.id.as_str()));
    head.push(concat("# NAME:", name.as_str()));
    let b = Block {
        head,
        schedule_field_text: job.schedule.clone(),
        wrapped_command: wrap_command(job.command.as_str(), log_path),
        tail: Vec::new(),
        gap: Some(String::new()),
    };
    proof {
        assert(b@.head =~~= block_for(job@, log_path@).head);
        assert(b@.tail =~~= block_for(job@, log_path@).tail);
    }
    b
}

/// Copies a row of texts.
pub fn clone_texts(texts: &Vec<String>) -> (r: Vec<String>)
    ensures
        r.deep_view() == texts.deep_view(),
{
    let mut r: Vec<String> = Vec::new();
    let mut k: usize = 0;
    while k < texts.len()
        invariant
            k <= texts.len(),
            r.len() == k,
            forall|j: int| 0 <= j < k ==> (#[trigger] r@[j])@ == texts@[j]@,
        decreases texts.len() - k,
    {
        r.push(texts[k].clone());
        k += 1;
    }
    assert(r.deep_view() =~= texts.deep_view());
    r
}

/// Copies an item.
pub fn clone_line(line: &Line) -> (r: Line)
    ensures
        r@ == line@,
{
    match line {
        Line::Foreign(text) => Line::Foreign(text.clone()),
        Line::Block(b) => Line::Block(
            Block {
                head: clone_texts(&b.head),
                schedule_field_text: b.schedule_field_text.clone(),
                wrapped_command: b.wrapped_command.clone(),
                tail: clone_texts(&b.tail),
                gap: clone_text(&b.gap),
            },
        ),
    }
}

/// Tells whether the last line of `line` is not blank.
fn line_ends_open(line: &Line) -> (r: bool)
    ensures
        r == !is_blank(line@.lines().last()),
{
    match line {
        Line::Foreign(text) => !blank(to_chars(text.as_str()).as_slice()),
        Line::Block(b) => match &b.gap {
            Some(g) => !blank(to_chars(g.as_str()).as_slice()),
            None => {
                if b.tail.len() > 0 {
                    let last = to_chars(b.tail[b.tail.len() - 1].as_str());
                    assert(b@.lines().last() == b@.tail.last());
                    !blank(last.as_slice())
                } else {
                    let entry = entry_line(b);
                    assert(b@.lines().last() == b@.entry());
                    !blank(entry.as_slice())
                }
            },
        },
    }
}

/// Brings `job` into `items`: drops its blocks and, where it is active, adds
/// its new block at the end.
pub fn reconcile_items(items: &Vec<Line>, job: &CronJob, log_path: &str) -> (r: Vec<Line>)
    ensures
        line_views(r@) == reconciled(line_views(items@), job@, log_path@),
{
    let ghost id = job@.id;
    let ghost all = line_views(items@);
    let mut kept: Vec<Line> = Vec::new();
    let mut k: usize = 0;
    proof {
        assert(all.take(0) =~= Seq::<LineView>::empty());
        reveal(Seq::filter);
        assert(line_views(kept@) =~= all.take(0).filter(others(id)));
    }
    while k < items.len()
        invariant
            k <= items.len(),
            id == job@.id,
            all == line_views(items@),
            line_views(kept@) == all.take(k as int).filter(others(id)),
        decreases items.len() - k,
    {
        let ghost before = line_views(kept@);
        proof {
            assert(all.take(k + 1) =~= all.take(k as int).push(all[k as int]));
            all.take(k as int).lemma_filter_push(all[k as int], others(id));
        }
        let is_job = match &items[k] {
            Line::Block(b) => match b.job_id() {
                Some(id) => id == job.id,
                None => false,
            },
            Line::Foreign(_) => false,
        };
        assert(is_job == is_block_of(all[k as int], id));
        if !is_job {
            kept.push(clone_line(&items[k]));
            assert(line_views(kept@) =~= before.push(all[k as int]));
        }
        k += 1;
    }
    assert(all.take(items.len() as int) == all);
    let ghost kept_view = line_views(kept@);
    if job.is_active {
        let open = kept.len() > 0 && line_ends_open(&kept[kept.len() - 1]);
        assert(open == ends_open(kept_view)) by {
            if kept.len() > 0 {
                assert(kept_view.last() == kept@[kept.len() - 1]@);
            }
        }
        if open {
            kept.push(Line::Foreign(String::new()));
        }
        kept.push(Line::Block(job_block(job, log_path)));
        assert(line_views(kept@) =~= kept_view + added_for(kept_view, job@, log_path@));
    } else {
        assert(kept_view + added_for(kept_view, job@, log_path@) =~= kept_view);
    }
    kept
}

/// Brings `job` into the external text `current_text` and gives the new text.
pub fn reconcile(current_text: &str, job: &CronJob, log_path: &str) -> (r: String)
    ensures
        r@ == reconciled_text(current_text@, job@, log_path@),
{
    let items = parse(current_text);
    let next = reconcile_items(&items, job, log_path);
    render(&next)
}

/// A row without a block of the job loses nothing when the job's blocks are
/// taken out.
pub proof fn lemma_without_job_is_all(items: Seq<LineView>, id: Seq<char>)
    requires
        !has_block_of(items, id),
    ensures
        without_job(items, id) == items,
    decreases items.len(),
{
    reveal(Seq::filter);
    if items.len() > 0 {
        let init = items.drop_last();
        assert forall|k: int| 0 <= k < init.len() implies !is_block_of(#[trigger] init[k], id) by {
            assert(init[k] == items[k]);
        }
        lemma_without_job_is_all(init, id);
        assert(!is_block_of(items[items.len() - 1], id));
        assert(init.push(items.last()) =~= items);
    }
}

/// Taking out the blocks of a job leaves no block of it, and leaves every
/// other item.
pub proof fn lemma_without_job(items: Seq<LineView>, id: Seq<char>)
    ensures
        !has_block_of(without_job(items, id), id),
        forall|i: int|
            0 <= i < items.len() && !is_block_of(items[i], id) ==> without_job(items, id).contains(
                #[trigger] items[i],
            ),
{
    let kept = without_job(items, id);
    assert forall|k: int| 0 <= k < kept.len() implies !is_block_of(#[trigger] kept[k], id) by {
        items.lemma_filter_pred(others(id), k);
    }
    assert forall|i: int| 0 <= i < items.len() && !is_block_of(items[i], id) implies kept.contains(
        #[trigger] items[i],
    ) by {
        items.lemma_filter_contains(others(id), i);
    }
}

/// Bringing in a job touches nothing that is not the job's: the items that
/// are not blocks of the job stay as they are and in their order, and so do
/// their lines; what is added behind them is the job's new block, with at
/// most an empty line before it.
pub proof fn lemma_reconcile_keeps_others(items: Seq<LineView>, job: JobView, log_path: Seq<char>)
    ensures
        without_job(items, job.id).is_prefix_of(reconciled(items, job, log_path)),
        lines_of(without_job(items, job.id)).is_prefix_of(
            lines_of(reconciled(items, job, log_path)),
        ),
        forall|i: int|
            0 <= i < items.len() && !is_block_of(items[i], job.id) ==> without_job(
                items,
                job.id,
            ).contains(#[trigger] items[i]),
        forall|k: int|
            without_job(items, job.id).len() <= k < reconciled(items, job, log_path).len() ==> {
                let item = #[trigger] reconciled(items, job, log_path)[k];
                item == LineView::Foreign(Seq::empty()) || is_block_of(item, job.id)
            },
        !has_block_of(items, job.id) && !job.is_active ==> reconciled(items, job, log_path)
            == items,
{
    let kept = without_job(items, job.id);
    let added = added_for(kept, job, log_path);
    lemma_without_job(items, job.id);
    lemma_block_for_job(job, log_path);
    lemma_lines_of_add(kept, added);
    assert((kept + added).subrange(0, kept.len() as int) =~= kept);
    assert((lines_of(kept) + lines_of(added)).subrange(0, lines_of(kept).len() as int)
        =~= lines_of(kept));
    if !has_block_of(items, job.id) && !job.is_active {
        lemma_without_job_is_all(items, job.id);
        assert(kept + added =~= kept);
    }
}

/// After a job was brought in, the items hold its block exactly where it is
/// active, and then once, as the last item.
pub proof fn lemma_reconcile_one_block(items: Seq<LineView>, job: JobView, log_path: Seq<char>)
    ensures
        !job.is_active ==> !has_block_of(reconciled(items, job, log_path), job.id),
        job.is_active ==> {
            let out = reconciled(items, job, log_path);
            &&& out.len() > 0
            &&& out.last() == LineView::Block(block_for(job, log_path))
            &&& forall|k: int| 0 <= k < out.len() - 1 ==> !is_block_of(#[trigger] out[k], job.id)
        },
{
    let kept = without_job(items, job.id);
    let out = reconciled(items, job, log_path);
    lemma_without_job(items, job.id);
    lemma_block_for_job(job, log_path);
    assert forall|k: int| 0 <= k < kept.len() implies !is_block_of(#[trigger] kept[k], job.id) by {}
    if !job.is_active {
        assert(out =~= kept);
    } else {
        assert forall|k: int| 0 <= k < out.len() - 1 implies !is_block_of(
            #[trigger] out[k],
            job.id,
        ) by {
            if k < kept.len() {
                assert(out[k] == kept[k]);
            }
        }
    }
}

/// The block that stands for a job belongs to that job.
pub proof fn lemma_block_for_job(job: JobView, log_path: Seq<char>)
    ensures
        block_for(job, log_path).job_id() == Some(job.id),
{
    let first = block_for(job, log_path).head[0];
    assert(first.subrange(0, id_tag().len() as int) =~= id_tag());
    assert(first.skip(id_tag().len() as int) =~= job.id);
}

/// Bringing in a job that is not active and has no block changes nothing.
pub proof fn lemma_reconcile_absent(text: Seq<char>, job: JobView, log_path: Seq<char>)
    requires
        !job.is_active,
        !has_block_of(parse_text(text), job.id),
    ensures
        reconciled_text(text, job, log_path) == text,
{
    lemma_reconcile_keeps_others(parse_text(text), job, log_path);
    lemma_render_parse(text);
}

/// Whether every line of `items` holds no line feed.
pub open spec fn items_plain(items: Seq<LineView>) -> bool {
    forall|k: int, j: int|
        0 <= k < items.len() && 0 <= j < items[k].lines().len() ==> is_one_line(
            #[trigger] items[k].lines()[j],
        )
}

/// Whether `text` holds no line feed.
pub open spec fn is_one_line(text: Seq<char>) -> bool {
    forall|c: int| 0 <= c < text.len() ==> text[c] != '\n'
}

/// Whether every one of `lines` holds no line feed.
pub open spec fn lines_plain(lines: Seq<Seq<char>>) -> bool {
    forall|m: int| 0 <= m < lines.len() ==> is_one_line(#[trigger] lines[m])
}

/// The items of lines without line feeds have lines without line feeds.
pub proof fn lemma_items_plain(lines: Seq<Seq<char>>, i: int)
    requires
        0 <= i <= lines.len(),
        lines_plain(lines),
    ensures
        items_plain(items_from(lines, i)),
    decreases lines.len() - i,
{
    let items = items_from(lines, i);
    if i < lines.len() {
        lemma_items_step(lines, i);
        let first = first_items(lines, i);
        let h = first_height(lines, i);
        let rest = items_from(lines, i + h);
        lemma_items_plain(lines, i + h);
        assert forall|k: int, j: int|
            0 <= k < items.len() && 0 <= j < items[k].lines().len() implies is_one_line(
            #[trigger] items[k].lines()[j],
        ) by {
            if k < first.len() {
                assert(items[k] == first[k]);
                if is_marker(lines[i]) && block_at(lines, i) is None {
                    assert(first[k] == LineView::Foreign(lines[i + k]));
                } else {
                    lemma_lines_of_one(first[0]);
                    assert(first[0].lines()[j] == lines.subrange(i, i + h)[j]);
                    assert(is_one_line(lines[i + j]));
                }
            } else {
                assert(items[k] == rest[k - first.len()]);
            }
        }
    }
}

/// The lines of items whose lines hold no line feed hold none.
pub proof fn lemma_lines_plain(items: Seq<LineView>)
    requires
        items_plain(items),
    ensures
        lines_plain(lines_of(items)),
    decreases items.len(),
{
    if items.len() > 0 {
        let init = items.drop_last();
        assert forall|k: int, j: int|
            0 <= k < init.len() && 0 <= j < init[k].lines().len() implies is_one_line(
            #[trigger] init[k].lines()[j],
        ) by {
            assert(init[k] == items[k]);
        }
        lemma_lines_plain(init);
        let last = items.last();
        assert forall|m: int| 0 <= m < lines_of(items).len() implies is_one_line(
            #[trigger] lines_of(items)[m],
        ) by {
            if m < lines_of(init).len() {
                assert(lines_of(items)[m] == lines_of(init)[m]);
            } else {
                assert(lines_of(items)[m] == items[items.len() - 1].lines()[m - lines_of(
                    init,
                ).len()]);
            }
        }
    }
}

/// One item is kept where it is no block of the job, and goes where it is
/// one.
pub proof fn lemma_filter_one(item: LineView, id: Seq<char>)
    ensures
        seq![item].filter(others(id)) == if is_block_of(item, id) {
            Seq::<LineView>::empty()
        } else {
            seq![item]
        },
{
    let none = Seq::<LineView>::empty();
    none.lemma_filter_push(item, others(id));
    assert(none.filter(others(id)) =~= none) by {
        reveal(Seq::filter);
    }
    assert(none.push(item) =~= seq![item]);
    assert(others(id)(item) == !is_block_of(item, id));
}

/// Where two texts hold the same lines from a line on, to the end of the
/// paragraph and past the blank line that ends it, the same items start
/// there.
pub proof fn lemma_same_start(lines: Seq<Seq<char>>, i: int, next: Seq<Seq<char>>, at: int)
    requires
        0 <= i < lines.len(),
        0 <= at < next.len(),
        next[at] == lines[i],
        is_marker(lines[i]) ==> {
            let m = para_len(lines, i);
            &&& at + m <= next.len()
            &&& next.subrange(at, at + m) == lines.subrange(i, i + m)
            &&& i + m < lines.len() ==> at + m < next.len() && next[at + m] == lines[i + m]
            &&& i + m == lines.len() ==> at + m == next.len()
        },
    ensures
        first_items(next, at) == first_items(lines, i),
        first_height(next, at) == first_height(lines, i),
{
    if is_marker(lines[i]) {
        lemma_para(lines, i);
        let m = para_len(lines, i);
        assert forall|j: int| at <= j < at + m implies !is_blank(#[trigger] next[j]) by {
            assert(next.subrange(at, at + m)[j - at] == lines.subrange(i, i + m)[j - at]);
            assert(!is_blank(lines[i + (j - at)]));
        }
        lemma_para_is(next, at, m);
        assert(para_at(next, at) == para_at(lines, i));
        assert(gap_at(next, at) == gap_at(lines, i));
        assert(block_at(next, at) == block_at(lines, i));
    }
}

/// What is kept of a text reads as it was kept: behind any lines, the lines
/// of the items that are left once the blocks of a job are taken out are
/// read as those items.
#[verifier::rlimit(40)]
pub proof fn lemma_kept_reads_back(lines: Seq<Seq<char>>, i: int, front: Seq<Seq<char>>, id: Seq<char>)
    requires
        0 <= i <= lines.len(),
    ensures
        items_from(
            front + lines_of(without_job(items_from(lines, i), id)),
            front.len() as int,
        ) == without_job(items_from(lines, i), id),
    decreases lines.len() - i,
{
    let items = items_from(lines, i);
    let kept = without_job(items, id);
    let next = front + lines_of(kept);
    let at = front.len() as int;
    if i >= lines.len() {
        reveal(Seq::filter);
        assert(kept =~= Seq::<LineView>::empty());
        assert(next =~= front);
    } else {
        lemma_items_step(lines, i);
        let first = first_items(lines, i);
        let h = first_height(lines, i);
        let rest = items_from(lines, i + h);
        let kept_rest = without_job(rest, id);
        Seq::filter_distributes_over_add(first, rest, others(id));
        if first.filter(others(id)).len() == 0 {
            assert(first.filter(others(id)) + kept_rest =~= kept_rest);
            lemma_kept_reads_back(lines, i + h, front, id);
        } else {
            lemma_first_kept(lines, i, id);
            assert(kept == first + kept_rest);
            lemma_lines_of_add(first, kept_rest);
            let part = lines.subrange(i, i + h);
            let further = front + part;
            assert(next =~= further + lines_of(kept_rest));
            lemma_kept_reads_back(lines, i + h, further, id);
            assert(next[at] == part[0]);
            if is_marker(lines[i]) {
                lemma_para(lines, i);
                let m = para_len(lines, i);
                assert forall|j: int| 0 <= j < m implies #[trigger] next.subrange(at, at + m)[j]
                    == lines.subrange(i, i + m)[j] by {
                    assert(next[at + j] == part[j]);
                }
                assert(next.subrange(at, at + m) =~= lines.subrange(i, i + m));
                if i + m < lines.len() {
                    if m < h {
                        assert(next[at + m] == part[m]);
                    } else {
                        lemma_blank_line_stays(lines, i + m, id);
                        assert(next[at + m] == lines_of(kept_rest)[0]);
                    }
                } else {
                    reveal(Seq::filter);
                    assert(rest =~= Seq::<LineView>::empty());
                    assert(kept_rest =~= Seq::<LineView>::empty());
                }
            }
            lemma_same_start(lines, i, next, at);
            lemma_items_step(next, at);
        }
    }
}

/// The first items from a line on are kept as they are, or they are one
/// block of the job and go.
pub proof fn lemma_first_kept(lines: Seq<Seq<char>>, i: int, id: Seq<char>)
    requires
        0 <= i < lines.len(),
    ensures
        first_items(lines, i).filter(others(id)) == first_items(lines, i) || first_items(
            lines,
            i,
        ).filter(others(id)).len() == 0,
{
    if is_marker(lines[i]) {
        match block_at(lines, i) {
            Some(b) => {
                lemma_filter_one(LineView::Block(b), id);
            },
            None => {
                lemma_foreigns_stay(para_at(lines, i), id);
            },
        }
    } else {
        lemma_filter_one(LineView::Foreign(lines[i]), id);
    }
}

/// A blank line is kept, as the first of what is kept from it on.
pub proof fn lemma_blank_line_stays(lines: Seq<Seq<char>>, i: int, id: Seq<char>)
    requires
        0 <= i < lines.len(),
        is_blank(lines[i]),
    ensures
        lines_of(without_job(items_from(lines, i), id)).len() > 0,
        lines_of(without_job(items_from(lines, i), id))[0] == lines[i],
{
    if is_marker(lines[i]) {
        lemma_marker(lines[i]);
    }
    let here = LineView::Foreign(lines[i]);
    let after = items_from(lines, i + 1);
    lemma_items_step(lines, i);
    Seq::filter_distributes_over_add(seq![here], after, others(id));
    lemma_filter_one(here, id);
    lemma_lines_of_add(seq![here], without_job(after, id));
    lemma_lines_of_one(here);
}

/// Foreign lines are no blocks of any job.
pub proof fn lemma_foreigns_stay(lines: Seq<Seq<char>>, id: Seq<char>)
    ensures
        foreigns(lines).filter(others(id)) == foreigns(lines),
    decreases lines.len(),
{
    reveal(Seq::filter);
    if lines.len() > 0 {
        lemma_foreigns_stay(lines.drop_last(), id);
        assert(foreigns(lines).drop_last() =~= foreigns(lines.drop_last()));
        assert(foreigns(lines).last() == LineView::Foreign(lines.last()));
        assert(foreigns(lines.drop_last()).push(foreigns(lines).last()) =~= foreigns(lines));
    } else {
        assert(foreigns(lines) =~= Seq::<LineView>::empty());
    }
}

/// Once a job that is not active was brought in, the text holds no block of
/// it.
pub proof fn lemma_removal_is_final(text: Seq<char>, job: JobView, log_path: Seq<char>)
    requires
        !job.is_active,
    ensures
        !has_block_of(parse_text(reconciled_text(text, job, log_path)), job.id),
{
    let id = job.id;
    let lines = split_on(text, '\n');
    let items = parse_text(text);
    let kept = without_job(items, id);
    lemma_split_pieces(text, '\n');
    assert(lines_plain(lines)) by {
        assert forall|m: int| 0 <= m < lines.len() implies is_one_line(#[trigger] lines[m]) by {
            assert forall|c: int| 0 <= c < lines[m].len() implies lines[m][c] != '\n' by {
                assert(lines[m][c] != '\n');
            }
        }
    }
    assert(reconciled(items, job, log_path) =~= kept);
    lemma_items_plain(lines, 0);
    lemma_without_job(items, id);
    assert(items_plain(kept)) by {
        assert forall|k: int, j: int|
            0 <= k < kept.len() && 0 <= j < kept[k].lines().len() implies is_one_line(
            #[trigger] kept[k].lines()[j],
        ) by {
            let item = kept[k];
            assert(kept.contains(item));
            items.lemma_filter_contains_rev(others(id), item);
            let i = choose|i: int| 0 <= i < items.len() && items[i] == item;
            assert(is_one_line(items[i].lines()[j]));
        }
    }
    lemma_lines_plain(kept);
    let kept_lines = lines_of(kept);
    let next = split_on(join_with(kept_lines, '\n'), '\n');
    let again = items_from(next, 0);
    if kept_lines.len() == 0 {
        reveal_strlit("# JOB_ID:");
        assert(next.len() == 1 && next[0].len() == 0);
        assert(!is_marker(next[0]));
        lemma_items_step(next, 0);
        assert(items_from(next, 1) =~= Seq::<LineView>::empty());
        assert(again =~= seq![LineView::Foreign(next[0])]);
        assert forall|k: int| 0 <= k < again.len() implies !is_block_of(#[trigger] again[k], id) by {}
    } else {
        assert forall|m: int, c: int|
            0 <= m < kept_lines.len() && 0 <= c < kept_lines[m].len() implies (
        #[trigger] kept_lines[m][c]) != '\n' by {
            assert(is_one_line(kept_lines[m]));
        }
        lemma_split_join(kept_lines, '\n');
        lemma_kept_reads_back(lines, 0, Seq::empty(), id);
        assert(Seq::<Seq<char>>::empty() + kept_lines =~= kept_lines);
        assert(again == kept);
    }
}

/// Bringing in a job that is not active a second time changes nothing.
pub proof fn lemma_reconcile_idempotent(text: Seq<char>, job: JobView, log_path: Seq<char>)
    requires
        !job.is_active,
    ensures
        reconciled_text(reconciled_text(text, job, log_path), job, log_path) == reconciled_text(
            text,
            job,
            log_path,
        ),
{
    lemma_removal_is_final(text, job, log_path);
    lemma_reconcile_absent(reconciled_text(text, job, log_path), job, log_path);
}

/// The entry line of the block that stands for `job`.
pub open spec fn entry_for(job: JobView, log_path: Seq<char>) -> Seq<char> {
    job.schedule + seq![' '] + wrapped(job.command, log_path)
}

/// Whether the block that stands for `job` reads back as it was written:
/// none of the job's fields holds a line feed, and its entry line is an
/// entry whose recurrence is the job's, which is so where the recurrence is
/// five words, or one that starts with `@`, with nothing behind them.
pub open spec fn fits_block(job: JobView, log_path: Seq<char>) -> bool {
    &&& is_one_line(job.id)
    &&& job.name matches Some(n) ==> is_one_line(n)
    &&& is_one_line(job.schedule)
    &&& is_one_line(job.command)
    &&& is_one_line(log_path)
    &&& is_entry(entry_for(job, log_path))
    &&& recurrence_end(entry_for(job, log_path)) == job.schedule.len()
}

/// Tells whether `text` holds no line feed.
fn one_line(text: &str) -> (r: bool)
    ensures
        r == is_one_line(text@),
{
    let chars = to_chars(text);
    let mut i: usize = 0;
    while i < chars.len()
        invariant
            i <= chars.len(),
            chars@ == text@,
            forall|c: int| 0 <= c < i ==> text@[c] != '\n',
        decreases chars.len() - i,
    {
        if chars[i] == '\n' {
            return false;
        }
        i += 1;
    }
    true
}

/// Tells whether the block that stands for `job` reads back as it was
/// written.
pub fn job_fits(job: &CronJob, log_path: &str) -> (r: bool)
    ensures
        r == fits_block(job@, log_path@),
{
    let name_fits = match &job.name {
        Some(n) => one_line(n.as_str()),
        None => true,
    };
    if !(one_line(job.id.as_str()) && name_fits && one_line(job.schedule.as_str()) && one_line(
        job.command.as_str(),
    ) && one_line(log_path)) {
        return false;
    }
    let mut entry = to_chars(job.schedule.as_str());
    let n = entry.len();
    entry.push(' ');
    let command = to_chars(wrap_command(job.command.as_str(), log_path).as_str());
    append_chars(&mut entry, command.as_slice());
    assert(entry@ =~= entry_for(job@, log_path@));
    match entry_end(entry.as_slice()) {
        Some(p) => p == n,
        None => false,
    }
}

/// Alone, the lines of the block that stands for a job that fits are read as
/// that block, and none of them holds a line feed.
proof fn lemma_block_reads_back(job: JobView, log_path: Seq<char>)
    requires
        fits_block(job, log_path),
    ensures
        items_from(block_for(job, log_path).lines(), 0) == seq![
            LineView::Block(block_for(job, log_path)),
        ],
        lines_plain(block_for(job, log_path).lines()),
{
    reveal_strlit("# JOB_ID:");
    reveal_strlit("# NAME:");
    reveal_strlit(" > '");
    reveal_strlit("' 2>&1");
    let b = block_for(job, log_path);
    let lines = b.lines();
    let entry = entry_for(job, log_path);
    let name = match job.name {
        Some(n) => n,
        None => Seq::<char>::empty(),
    };
    assert(lines.len() == 4);
    assert(lines[0] == id_tag() + job.id);
    assert(lines[1] == name_tag() + name);
    assert(lines[2] == entry);
    assert(lines[3] == Seq::<char>::empty());
    assert(is_one_line(lines[0]));
    assert(is_one_line(lines[1]));
    assert(is_one_line(wrapped(job.command, log_path)));
    assert(is_one_line(lines[2]));
    assert(is_one_line(lines[3]));
    assert(lines[0].subrange(0, id_tag().len() as int) =~= id_tag());
    assert(is_marker(lines[0]));
    lemma_marker(lines[0]);
    assert(is_comment(lines[1]) && !is_blank(lines[1])) by {
        assert(lines[1][0] == '#');
        assert(!is_space(lines[1][0]));
    }
    assert(!is_blank(entry) && !is_comment(entry)) by {
        lemma_entry_not_blank(entry);
    }
    assert(is_blank(lines[3]));
    lemma_para_is(lines, 0, 3);
    let part = para_at(lines, 0);
    assert(part =~= seq![lines[0], lines[1], lines[2]]);
    assert(first_plain(part, 2) == 2);
    assert(first_plain(part, 1) == 2);
    assert(first_plain(part, 0) == 2);
    assert(entry.take(job.schedule.len() as int) =~= job.schedule);
    assert(entry.skip(job.schedule.len() as int + 1) =~= wrapped(job.command, log_path));
    assert(part.take(2) =~= b.head);
    assert(part.skip(3) =~= b.tail);
    assert(block_at(lines, 0) == Some(b));
    lemma_items_step(lines, 0);
    assert(items_from(lines, 4) =~= Seq::<LineView>::empty());
    assert(items_from(lines, 0) =~= seq![LineView::Block(b)]);
}

/// Lines that end in a blank one are read alike alone and in front of more
/// lines; what follows them is read from their end on.
proof fn lemma_items_prefix(a: Seq<Seq<char>>, b: Seq<Seq<char>>, i: int)
    requires
        0 <= i <= a.len(),
        a.len() > 0 ==> is_blank(a.last()),
    ensures
        items_from(a + b, i) == items_from(a, i) + items_from(a + b, a.len() as int),
    decreases a.len() - i,
{
    let all = a + b;
    if i < a.len() {
        lemma_items_step(a, i);
        lemma_para(a, i);
        let m = para_len(a, i);
        assert(all[i] == a[i]);
        if is_marker(a[i]) {
            lemma_marker(a[i]);
            assert(i + m < a.len()) by {
                if i + m == a.len() {
                    assert(!is_blank(a[a.len() - 1]));
                }
            }
            assert(all.subrange(i, i + m) =~= a.subrange(i, i + m));
            assert(all[i + m] == a[i + m]);
        }
        lemma_same_start(a, i, all, i);
        lemma_items_step(all, i);
        let h = first_height(a, i);
        lemma_items_prefix(a, b, i + h);
        assert(items_from(all, i) =~= items_from(a, i) + items_from(all, a.len() as int));
    } else {
        assert(items_from(a, i) =~= Seq::<LineView>::empty());
        assert(items_from(a, i) + items_from(all, a.len() as int) =~= items_from(
            all,
            a.len() as int,
        ));
    }
}

/// Behind other lines, lines hold the items that they hold alone.
proof fn lemma_items_suffix(a: Seq<Seq<char>>, b: Seq<Seq<char>>, i: int)
    requires
        0 <= i <= b.len(),
    ensures
        items_from(a + b, a.len() + i) == items_from(b, i),
    decreases b.len() - i,
{
    let all = a + b;
    let at = a.len() + i;
    if i < b.len() {
        lemma_items_step(b, i);
        lemma_para(b, i);
        let m = para_len(b, i);
        assert(all[at] == b[i]);
        assert(all.subrange(at, at + m) =~= b.subrange(i, i + m));
        if i + m < b.len() {
            assert(all[at + m] == b[i + m]);
        }
        lemma_same_start(b, i, all, at);
        lemma_items_step(all, at);
        lemma_items_suffix(a, b, i + first_height(b, i));
    }
}

/// A blank line behind some lines makes no block of a job where there was
/// none.
proof fn lemma_blank_behind(lines: Seq<Seq<char>>, e: Seq<char>, i: int, id: Seq<char>)
    requires
        0 <= i <= lines.len(),
        is_blank(e),
        !has_block_of(items_from(lines, i), id),
    ensures
        !has_block_of(items_from(lines + seq![e], i), id),
    decreases lines.len() - i,
{
    let more = lines + seq![e];
    let items = items_from(more, i);
    if i < lines.len() {
        lemma_items_step(lines, i);
        lemma_items_step(more, i);
        lemma_para(lines, i);
        let m = para_len(lines, i);
        assert(more[i] == lines[i]);
        assert forall|j: int| i <= j < i + m implies !is_blank(#[trigger] more[j]) by {
            assert(more[j] == lines[j]);
        }
        if i + m < lines.len() {
            assert(more[i + m] == lines[i + m]);
        } else {
            assert(more[i + m] == e);
        }
        lemma_para_is(more, i, m);
        assert(para_at(more, i) =~= para_at(lines, i));
        let first = first_items(lines, i);
        let h = first_height(lines, i);
        let rest = items_from(lines, i + h);
        assert(items_from(lines, i) == first + rest);
        assert(!has_block_of(rest, id)) by {
            if has_block_of(rest, id) {
                let k = choose|k: int| 0 <= k < rest.len() && is_block_of(#[trigger] rest[k], id);
                assert(is_block_of(items_from(lines, i)[first.len() + k], id));
            }
        }
        assert(!is_block_of(first[0], id)) by {
            assert(items_from(lines, i)[0] == first[0]);
        }
        let first_more = first_items(more, i);
        let h_more = first_height(more, i);
        let rest_more = items_from(more, i + h_more);
        if h_more == h {
            lemma_blank_behind(lines, e, i + h, id);
        } else {
            assert(is_marker(lines[i]) && block_at(lines, i) is Some);
            assert(i + h == lines.len());
            assert(i + h_more == more.len());
            assert(rest_more =~= Seq::<LineView>::empty());
        }
        assert forall|k: int| 0 <= k < items.len() implies !is_block_of(#[trigger] items[k], id) by {
            if k < first_more.len() {
                assert(items[k] == first_more[k]);
                if is_marker(lines[i]) && block_at(lines, i) is Some {
                    assert(first_more[0] matches LineView::Block(b) && b.head == block_at(
                        lines,
                        i,
                    )->0.head);
                } else {
                    assert(first_more[k] is Foreign);
                }
            } else {
                assert(items[k] == rest_more[k - first_more.len()]);
            }
        }
    } else {
        if is_marker(e) {
            lemma_marker(e);
        }
        lemma_items_step(more, i);
        assert(items_from(more, i + 1) =~= Seq::<LineView>::empty());
        assert forall|k: int| 0 <= k < items.len() implies !is_block_of(#[trigger] items[k], id) by {
            assert(items[k] == LineView::Foreign(e));
        }
    }
}

/// Once an active job that fits was brought in, the text holds its block
/// once, as its last item, and the block carries the job's fields; what
/// stands before the block ends in a blank line, or is nothing.
pub proof fn lemma_reconcile_shows_job(text: Seq<char>, job: JobView, log_path: Seq<char>)
    requires
        job.is_active,
        fits_block(job, log_path),
    ensures
        ({
            let items = parse_text(reconciled_text(text, job, log_path));
            &&& items.len() > 0
            &&& items.last() == LineView::Block(block_for(job, log_path))
            &&& forall|k: int| 0 <= k < items.len() - 1 ==> !is_block_of(#[trigger] items[k], job.id)
            &&& !ends_open(items.drop_last())
        }),
{
    let id = job.id;
    let lines = split_on(text, '\n');
    let before = parse_text(text);
    let kept = without_job(before, id);
    let block = block_for(job, log_path);
    let kept_lines = lines_of(kept);
    let open = ends_open(kept);
    let a = if open {
        kept_lines + seq![Seq::<char>::empty()]
    } else {
        kept_lines
    };
    let b = block.lines();
    let out = reconciled(before, job, log_path);

    // The lines of the new text.
    lemma_split_pieces(text, '\n');
    assert(lines_plain(lines)) by {
        assert forall|m: int| 0 <= m < lines.len() implies is_one_line(#[trigger] lines[m]) by {
            assert forall|c: int| 0 <= c < lines[m].len() implies lines[m][c] != '\n' by {
                assert(lines[m][c] != '\n');
            }
        }
    }
    lemma_items_plain(lines, 0);
    lemma_without_job(before, id);
    assert(items_plain(kept)) by {
        assert forall|k: int, j: int|
            0 <= k < kept.len() && 0 <= j < kept[k].lines().len() implies is_one_line(
            #[trigger] kept[k].lines()[j],
        ) by {
            let item = kept[k];
            assert(kept.contains(item));
            before.lemma_filter_contains_rev(others(id), item);
            let i = choose|i: int| 0 <= i < before.len() && before[i] == item;
            assert(is_one_line(before[i].lines()[j]));
        }
    }
    lemma_lines_plain(kept);
    lemma_block_reads_back(job, log_path);
    if open {
        let gap = seq![LineView::Foreign(Seq::<char>::empty())];
        assert(out =~= kept + gap + seq![LineView::Block(block)]);
        lemma_lines_of_add(kept + gap, seq![LineView::Block(block)]);
        lemma_lines_of_add(kept, gap);
        lemma_lines_of_one(LineView::Foreign(Seq::<char>::empty()));
    } else {
        assert(out =~= kept + seq![LineView::Block(block)]);
        lemma_lines_of_add(kept, seq![LineView::Block(block)]);
    }
    lemma_lines_of_one(LineView::Block(block));
    assert(lines_of(out) == a + b);
    let all = a + b;
    assert forall|m: int, c: int| 0 <= m < all.len() && 0 <= c < all[m].len() implies (
    #[trigger] all[m][c]) != '\n' by {
        if m < kept_lines.len() {
            assert(is_one_line(kept_lines[m]));
        } else if m < a.len() {
        } else {
            assert(is_one_line(b[m - a.len()]));
        }
    }
    lemma_split_join(all, '\n');

    // The lines in front of the block end in a blank one and hold no block
    // of the job.
    if kept.len() > 0 {
        assert(kept_lines.len() > 0 && kept_lines.last() == kept.last().lines().last()) by {
            assert(kept_lines == lines_of(kept.drop_last()) + kept.last().lines());
            lemma_item_has_lines(kept.last());
        }
    } else {
        assert(kept_lines =~= Seq::<Seq<char>>::empty());
    }
    lemma_kept_reads_back(lines, 0, Seq::empty(), id);
    assert(Seq::<Seq<char>>::empty() + kept_lines =~= kept_lines);
    assert(items_from(kept_lines, 0) == kept);
    if open {
        lemma_blank_behind(kept_lines, Seq::<char>::empty(), 0, id);
    }
    lemma_items_prefix(a, b, 0);
    lemma_items_suffix(a, b, 0);
    let items = items_from(all, 0);
    let first = items_from(a, 0);
    assert(items == first + seq![LineView::Block(block)]);
    assert forall|k: int| 0 <= k < items.len() - 1 implies !is_block_of(#[trigger] items[k], id) by {
        assert(items[k] == first[k]);
    }
    assert(items.drop_last() =~= first);
    lemma_items_keep_lines(a, 0);
    assert(a.skip(0) =~= a);
    if first.len() > 0 {
        lemma_item_has_lines(first.last());
        assert(lines_of(first) == lines_of(first.drop_last()) + first.last().lines());
        assert(a.last() == first.last().lines().last());
    }
}

/// Bringing in an active job that fits a second time changes nothing.
pub proof fn lemma_reconcile_again(text: Seq<char>, job: JobView, log_path: Seq<char>)
    requires
        job.is_active,
        fits_block(job, log_path),
    ensures
        reconciled_text(reconciled_text(text, job, log_path), job, log_path) == reconciled_text(
            text,
            job,
            log_path,
        ),
{
    let once = reconciled_text(text, job, log_path);
    let items = parse_text(once);
    let block = LineView::Block(block_for(job, log_path));
    lemma_reconcile_shows_job(text, job, log_path);
    lemma_block_for_job(job, log_path);
    let first = items.drop_last();
    assert(items =~= first + seq![block]);
    Seq::filter_distributes_over_add(first, seq![block], others(job.id));
    lemma_filter_one(block, job.id);
    assert(!has_block_of(first, job.id)) by {
        if has_block_of(first, job.id) {
            let k = choose|k: int| 0 <= k < first.len() && is_block_of(#[trigger] first[k], job.id);
            assert(first[k] == items[k]);
        }
    }
    lemma_without_job_is_all(first, job.id);
    assert(without_job(items, job.id) =~= first);
    assert(reconciled(items, job, log_path) =~= items);
    lemma_render_parse(once);
}

/// An item has a line.
proof fn lemma_item_has_lines(item: LineView)
    ensures
        item.lines().len() >= 1,
{
}

} // verus!
