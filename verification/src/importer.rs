//! Taking the external text as the truth at start-up: every block of the
//! text makes its job active with the block's fields, and every job without
//! a block is inactive.

use crate::chars::{
    from_chars, join_chars, join_with, split_chars, split_on, split_words, to_chars, trim,
    trim_chars, words,
};
use crate::job::{
    clone_job, find_job, job_views, lemma_position_of, position_of, CronJob, JobView,
};
use crate::reconcile::{has_block_of, is_block_of};
use crate::schedule_text::{line_views, parse, parse_text, Block, BlockView, Line, LineView};
use vstd::prelude::*;

verus! {

/// The words of `text` with one space between neighbours.
pub open spec fn single_spaced(text: Seq<char>) -> Seq<char> {
    join_with(words(text), ' ')
}

/// The command that a block's entry was made from: what stands before the
/// first `>`, single-spaced and without white space at its ends.
pub open spec fn unwrapped(command: Seq<char>) -> Seq<char> {
    trim(split_on(single_spaced(command), '>')[0])
}

/// The name that a block gives its job: that of its name line, without white
/// space at its ends.
pub open spec fn block_name(b: BlockView) -> Option<Seq<char>> {
    match b.name() {
        Some(n) => Some(trim(n)),
        None => None,
    }
}

/// The active job with the id `id` and the fields of the block `b`.
pub open spec fn job_from(id: Seq<char>, b: BlockView) -> JobView {
    JobView {
        id,
        name: block_name(b),
        schedule: single_spaced(b.schedule_field_text),
        command: unwrapped(b.wrapped_command),
        is_active: true,
    }
}

/// `jobs` after the block `b` was taken in: the first job with the block's
/// id gets its fields and is active; where there is none, a new job follows
/// the others.
pub open spec fn with_block(jobs: Seq<JobView>, b: BlockView) -> Seq<JobView> {
    match b.job_id() {
        Some(id) => match position_of(jobs, id) {
            Some(i) => jobs.update(i, job_from(jobs[i].id, b)),
            None => jobs.push(job_from(id, b)),
        },
        None => jobs,
    }
}

/// `jobs` after the blocks among `items` were taken in, one after the other.
pub open spec fn with_blocks(jobs: Seq<JobView>, items: Seq<LineView>) -> Seq<JobView>
    decreases items.len(),
{
    if items.len() == 0 {
        jobs
    } else {
        let before = with_blocks(jobs, items.drop_last());
        match items.last() {
            LineView::Block(b) => with_block(before, b),
            LineView::Foreign(_) => before,
        }
    }
}

/// `job`, not active.
pub open spec fn inactive(job: JobView) -> JobView {
    JobView { is_active: false, ..job }
}

/// The stored jobs as the external text `text` has them: all inactive but
/// those that a block of the text names, and those with the block's fields.
pub open spec fn imported(text: Seq<char>, stored: Seq<JobView>) -> Seq<JobView> {
    with_blocks(stored.map_values(|j: JobView| inactive(j)), parse_text(text))
}

/// Writes the words of `text` with one space between neighbours.
pub fn single_space(text: &str) -> (r: Vec<char>)
    ensures
        r@ == single_spaced(text@),
{
    let chars = to_chars(text);
    let parts = split_words(chars.as_slice());
    join_chars(&parts, ' ')
}

/// Recovers the command that a block's entry was made from.
pub fn unwrap_command(command: &str) -> (r: String)
    ensures
        r@ == unwrapped(command@),
{
    let spaced = single_space(command);
    let parts = split_chars(spaced.as_slice(), '>');
    proof {
        crate::chars::lemma_split_pieces(spaced@, '>');
        assert(parts.deep_view()[0] == parts@[0]@);
    }
    from_chars(trim_chars(parts[0].as_slice()).as_slice())
}

/// The active job with the id `id` and the fields of the block `b`.
pub fn job_of_block(id: &str, b: &Block) -> (job: CronJob)
    ensures
        job@ == job_from(id@, b@),
{
    let name = match b.name() {
        Some(n) => Some(from_chars(trim_chars(to_chars(n.as_str()).as_slice()).as_slice())),
        None => None,
    };
    CronJob {
        id: from_chars(to_chars(id).as_slice()),
        name,
        schedule: from_chars(single_space(b.schedule_field_text.as_str()).as_slice()),
        command: unwrap_command(b.wrapped_command.as_str()),
        is_active: true,
    }
}

/// Takes the block `b` into `jobs`.
pub fn take_block(jobs: &mut Vec<CronJob>, b: &Block)
    ensures
        job_views(final(jobs)@) == with_block(job_views(old(jobs)@), b@),
{
    let ghost before = job_views(jobs@);
    let id = match b.job_id() {
        Some(id) => id,
        None => {
            return ;
        },
    };
    match find_job(jobs, id.as_str()) {
        Some(i) => {
            let job = job_of_block(jobs[i].id.as_str(), b);
            assert(before[i as int] == jobs@[i as int]@);
            jobs.set(i, job);
            assert(job_views(jobs@) =~= with_block(before, b@));
        },
        None => {
            let job = job_of_block(id.as_str(), b);
            jobs.push(job);
            assert(job_views(jobs@) =~= with_block(before, b@));
        },
    }
}

/// Takes the blocks among `items` into `jobs`, one after the other.
pub fn take_blocks(jobs: &mut Vec<CronJob>, items: &Vec<Line>)
    ensures
        job_views(final(jobs)@) == with_blocks(job_views(old(jobs)@), line_views(items@)),
{
    let ghost start = job_views(jobs@);
    let ghost all = line_views(items@);
    let mut k: usize = 0;
    assert(all.take(0) =~= Seq::<LineView>::empty());
    while k < items.len()
        invariant
            k <= items.len(),
            all == line_views(items@),
            job_views(jobs@) == with_blocks(start, all.take(k as int)),
        decreases items.len() - k,
    {
        assert(all.take(k + 1).drop_last() == all.take(k as int));
        assert(all.take(k + 1).last() == items@[k as int]@);
        match &items[k] {
            Line::Block(b) => {
                take_block(jobs, b);
            },
            Line::Foreign(_) => {},
        }
        k += 1;
    }
    assert(all.take(items.len() as int) == all);
}

/// Brings the stored jobs in line with the external text `current_text`.
pub fn import(current_text: &str, stored_jobs: &Vec<CronJob>) -> (jobs: Vec<CronJob>)
    ensures
        job_views(jobs@) == imported(current_text@, job_views(stored_jobs@)),
{
    let ghost stored = job_views(stored_jobs@);
    let mut jobs: Vec<CronJob> = Vec::new();
    let mut k: usize = 0;
    while k < stored_jobs.len()
        invariant
            k <= stored_jobs.len(),
            stored == job_views(stored_jobs@),
            jobs.len() == k,
            forall|j: int| 0 <= j < k ==> (#[trigger] jobs@[j])@ == inactive(stored[j]),
        decreases stored_jobs.len() - k,
    {
        let mut job = clone_job(&stored_jobs[k]);
        job.is_active = false;
        assert(stored[k as int] == stored_jobs@[k as int]@);
        jobs.push(job);
        k += 1;
    }
    assert(job_views(jobs@) =~= stored.map_values(|j: JobView| inactive(j)));
    let items = parse(current_text);
    take_blocks(&mut jobs, &items);
    jobs
}


/// Taking blocks in keeps every job that was there at its place and under
/// its id, and leaves a job untouched whose id no block carries.
pub proof fn lemma_with_blocks_keeps(jobs: Seq<JobView>, items: Seq<LineView>)
    ensures
        with_blocks(jobs, items).len() >= jobs.len(),
        forall|i: int|
            0 <= i < jobs.len() ==> (#[trigger] with_blocks(jobs, items)[i]).id == jobs[i].id,
        forall|i: int|
            0 <= i < jobs.len() && !has_block_of(items, jobs[i].id) ==> #[trigger] with_blocks(
                jobs,
                items,
            )[i] == jobs[i],
    decreases items.len(),
{
    if items.len() > 0 {
        let init = items.drop_last();
        let before = with_blocks(jobs, init);
        lemma_with_blocks_keeps(jobs, init);
        assert forall|i: int| 0 <= i < jobs.len() && !has_block_of(items, jobs[i].id) implies
            !has_block_of(init, jobs[i].id) by {
            if has_block_of(init, jobs[i].id) {
                let k = choose|k: int|
                    0 <= k < init.len() && is_block_of(#[trigger] init[k], jobs[i].id);
                assert(is_block_of(items[k], jobs[i].id));
            }
        }
        match items.last() {
            LineView::Block(b) => {
                if b.job_id() is Some {
                    lemma_position_of(before, b.job_id()->0);
                }
                assert forall|i: int|
                    0 <= i < jobs.len() && !has_block_of(items, jobs[i].id) implies with_block(
                    before,
                    b,
                )[i] == jobs[i] by {
                    assert(!is_block_of(items[items.len() - 1], jobs[i].id));
                }
            },
            LineView::Foreign(_) => {},
        }
    }
}

/// After an import every stored job is still there, at its place and under
/// its id; one whose id no block of the text carries is inactive and has its
/// fields as they were stored.
pub proof fn lemma_import_keeps_stored(text: Seq<char>, stored: Seq<JobView>)
    ensures
        imported(text, stored).len() >= stored.len(),
        forall|i: int|
            0 <= i < stored.len() ==> (#[trigger] imported(text, stored)[i]).id == stored[i].id,
        forall|i: int|
            0 <= i < stored.len() && !has_block_of(parse_text(text), stored[i].id)
                ==> #[trigger] imported(text, stored)[i] == inactive(stored[i]),
{
    let start = stored.map_values(|j: JobView| inactive(j));
    lemma_with_blocks_keeps(start, parse_text(text));
    assert forall|i: int|
        0 <= i < stored.len() && !has_block_of(
            parse_text(text),
            stored[i].id,
        ) implies #[trigger] imported(text, stored)[i] == inactive(stored[i]) by {
        assert(start[i].id == stored[i].id);
    }
}

/// Whether the job at `i` is the first of `jobs` with its id.
pub open spec fn is_first_of_id(jobs: Seq<JobView>, i: int) -> bool {
    0 <= i < jobs.len() && forall|j: int| 0 <= j < i ==> (#[trigger] jobs[j]).id != jobs[i].id
}

/// A job that was not active and is the first with its id is active after
/// blocks were taken in exactly where one of the blocks is a block of it.
pub proof fn lemma_with_blocks_active(jobs: Seq<JobView>, items: Seq<LineView>, i: int)
    requires
        is_first_of_id(jobs, i),
        !jobs[i].is_active,
    ensures
        with_blocks(jobs, items).len() >= jobs.len(),
        with_blocks(jobs, items)[i].is_active == has_block_of(items, jobs[i].id),
    decreases items.len(),
{
    let id = jobs[i].id;
    lemma_with_blocks_keeps(jobs, items);
    if items.len() > 0 {
        let init = items.drop_last();
        let before = with_blocks(jobs, init);
        lemma_with_blocks_active(jobs, init, i);
        lemma_with_blocks_keeps(jobs, init);
        let last = items[items.len() - 1];
        assert(has_block_of(items, id) == (has_block_of(init, id) || is_block_of(last, id))) by {
            if has_block_of(init, id) {
                let k = choose|k: int| 0 <= k < init.len() && is_block_of(#[trigger] init[k], id);
                assert(is_block_of(items[k], id));
            }
            if has_block_of(items, id) && !is_block_of(last, id) {
                let k = choose|k: int| 0 <= k < items.len() && is_block_of(#[trigger] items[k], id);
                assert(is_block_of(init[k], id));
            }
        }
        match items.last() {
            LineView::Block(b) => {
                if b.job_id() is Some {
                    let other = b.job_id()->0;
                    lemma_position_of(before, other);
                    if other == id {
                        assert(before[i].id == id);
                        assert forall|j: int| 0 <= j < i implies (#[trigger] before[j]).id
                            != id by {
                            assert(before[j].id == jobs[j].id);
                        }
                        assert(position_of(before, other) == Some(i));
                    } else {
                        assert(before[i].id != other);
                    }
                }
            },
            LineView::Foreign(_) => {},
        }
    } else {
        assert(!has_block_of(items, id));
    }
}

/// After an import, a stored job that is the first with its id is active
/// exactly where the text holds a block of it.
pub proof fn lemma_import_active(text: Seq<char>, stored: Seq<JobView>, i: int)
    requires
        is_first_of_id(stored, i),
    ensures
        imported(text, stored).len() > i,
        imported(text, stored)[i].is_active == has_block_of(parse_text(text), stored[i].id),
{
    let start = stored.map_values(|j: JobView| inactive(j));
    assert forall|j: int| 0 <= j < i implies (#[trigger] start[j]).id != start[i].id by {
        assert(stored[j].id != stored[i].id);
    }
    lemma_with_blocks_active(start, parse_text(text), i);
}

} // verus!
