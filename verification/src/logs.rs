//! The logs of the jobs: where they are kept, which files are logs, and in
//! which order they are shown.

use crate::chars::{matches_at, occurs_at, to_chars};
use crate::error::concat;
use crate::python::{join_path, path_join};
use vstd::prelude::*;
use vstd::seq_lib::{to_multiset_build, to_multiset_insert};

verus! {

/// Where the output of the job `id` is logged: `<home>/.crontab/<id>.log`.
pub open spec fn log_path_of(home: Seq<char>, id: Seq<char>) -> Seq<char> {
    path_join(path_join(home, ".crontab"@), id + ".log"@)
}

/// The directory that holds the logs of the jobs.
pub fn log_directory(home: &str) -> (r: String)
    ensures
        r@ == path_join(home@, ".crontab"@),
{
    join_path(home, ".crontab")
}

/// The file that the output of the job `job_id` is logged to.
pub fn job_log_path(home: &str, job_id: &str) -> (r: String)
    ensures
        r@ == log_path_of(home@, job_id@),
{
    let directory = log_directory(home);
    let file = concat(job_id, ".log");
    join_path(directory.as_str(), file.as_str())
}

/// Whether a file of this name is a log: the name ends in `.log` and has
/// something before that.
pub open spec fn is_log_name(name: Seq<char>) -> bool {
    name.len() > ".log"@.len() && occurs_at(name, ".log"@, name.len() - ".log"@.len())
}

/// Tells whether a file of this name is a log.
pub fn has_log_extension(name: &str) -> (r: bool)
    ensures
        r == is_log_name(name@),
{
    let chars = to_chars(name);
    let ending = to_chars(".log");
    if chars.len() <= ending.len() {
        return false;
    }
    matches_at(chars.as_slice(), ending.as_slice(), chars.len() - ending.len())
}

/// `a` comes before `b`, or is `b`, in the order of a dictionary that goes
/// by the characters' code points.
pub open spec fn text_le(a: Seq<char>, b: Seq<char>) -> bool
    decreases a.len(),
{
    if a.len() == 0 {
        true
    } else if b.len() == 0 {
        false
    } else if a[0] != b[0] {
        a[0] < b[0]
    } else {
        text_le(a.drop_first(), b.drop_first())
    }
}

/// Of two texts, one comes before the other or is the other.
pub proof fn lemma_text_le_total(a: Seq<char>, b: Seq<char>)
    ensures
        text_le(a, b) || text_le(b, a),
    decreases a.len(),
{
    if a.len() > 0 && b.len() > 0 && a[0] == b[0] {
        lemma_text_le_total(a.drop_first(), b.drop_first());
    }
}

/// What comes before a text comes before whatever that text comes before.
pub proof fn lemma_text_le_transitive(a: Seq<char>, b: Seq<char>, c: Seq<char>)
    requires
        text_le(a, b),
        text_le(b, c),
    ensures
        text_le(a, c),
    decreases a.len(),
{
    if a.len() > 0 && b.len() > 0 && c.len() > 0 && a[0] == b[0] && b[0] == c[0] {
        lemma_text_le_transitive(a.drop_first(), b.drop_first(), c.drop_first());
    }
}

/// Tells whether `a` comes before `b` or is `b`.
pub fn text_before(a: &[char], b: &[char]) -> (r: bool)
    ensures
        r == text_le(a@, b@),
{
    let mut i: usize = 0;
    assert(a@.skip(0) == a@ && b@.skip(0) == b@);
    loop
        invariant
            i <= a.len(),
            i <= b.len(),
            text_le(a@, b@) == text_le(a@.skip(i as int), b@.skip(i as int)),
        decreases a.len() - i,
    {
        if i == a.len() {
            return true;
        }
        if i == b.len() {
            return false;
        }
        assert(a@.skip(i as int)[0] == a@[i as int]);
        assert(b@.skip(i as int)[0] == b@[i as int]);
        if a[i] != b[i] {
            return a[i] < b[i];
        }
        assert(a@.skip(i as int).drop_first() == a@.skip(i + 1));
        assert(b@.skip(i as int).drop_first() == b@.skip(i + 1));
        i += 1;
    }
}

/// Tells whether the text at `p` comes before `b` or is `b`.
fn text_at_before(texts: &Vec<String>, p: usize, b: &[char]) -> (r: bool)
    requires
        p < texts.len(),
    ensures
        r == text_le(texts@[p as int]@, b@),
{
    text_before(to_chars(texts[p].as_str()).as_slice(), b)
}

/// Whether no text of the row comes before an earlier one, unless it is
/// that one.
pub open spec fn descending(texts: Seq<Seq<char>>) -> bool {
    forall|i: int, j: int| 0 <= i < j < texts.len() ==> text_le(texts[j], texts[i])
}

/// The same texts, each as often as in `logs`, the last of the dictionary
/// first.
pub fn newest_first(logs: &Vec<String>) -> (r: Vec<String>)
    ensures
        descending(r.deep_view()),
        r.deep_view().to_multiset() == logs.deep_view().to_multiset(),
{
    let ghost all = logs.deep_view();
    let mut out: Vec<String> = Vec::new();
    let mut k: usize = 0;
    assert(out.deep_view() =~= all.take(0));
    while k < logs.len()
        invariant
            k <= logs.len(),
            all == logs.deep_view(),
            descending(out.deep_view()),
            out.deep_view().to_multiset() == all.take(k as int).to_multiset(),
        decreases logs.len() - k,
    {
        let text = logs[k].clone();
        let chars = to_chars(text.as_str());
        let ghost x = chars@;
        let ghost before = out.deep_view();
        assert(all[k as int] == x);
        let mut p: usize = 0;
        while p < out.len() && !text_at_before(&out, p, chars.as_slice())
            invariant
                p <= out.len(),
                before == out.deep_view(),
                x == chars@,
                forall|j: int| 0 <= j < p ==> !text_le(#[trigger] before[j], x),
            decreases out.len() - p,
        {
            assert(before[p as int] == out@[p as int]@);
            p += 1;
        }
        assert(p < out.len() ==> text_le(before[p as int], x)) by {
            if p < out.len() {
                assert(before[p as int] == out@[p as int]@);
            }
        }
        out.insert(p, text);
        proof {
            let after = out.deep_view();
            assert(after =~~= before.insert(p as int, x));
            to_multiset_insert(before, p as int, x);
            assert(all.take(k + 1) =~= all.take(k as int).push(x));
            to_multiset_build(all.take(k as int), x);
            assert forall|i: int, j: int| 0 <= i < j < after.len() implies text_le(
                after[j],
                after[i],
            ) by {
                if j == p {
                    lemma_text_le_total(after[i], x);
                } else if i == p {
                    assert(after[j] == before[j - 1]);
                    if j - 1 > p {
                        lemma_text_le_transitive(before[j - 1], before[p as int], x);
                    }
                } else if i < p && j > p {
                    assert(after[j] == before[j - 1]);
                } else if i > p {
                    assert(after[i] == before[i - 1] && after[j] == before[j - 1]);
                }
            }
        }
        k += 1;
    }
    assert(all.take(logs.len() as int) == all);
    out
}

} // verus!
