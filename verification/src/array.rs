//! Job array specifications and their expansion into task ids.
//!
//! Slurm-compatible array specs:
//! - `0-99`: tasks 0 through 99
//! - `0-99%10`: tasks 0 through 99, at most 10 running at once
//! - `1,3,5,7`: these task ids
//! - `0-10:2`: tasks 0, 2, 4, 6, 8, 10 (a step of 2)
//! - `1-5,10-15`: a combination of parts
use vstd::prelude::*;

use crate::job::JobState;
use crate::sorting::{sorted_distinct, strictly_increasing};
use crate::text::{
    chars_of, decimal_digits, find_first, find_last, first_index_of, is_digit, last_index_of,
    lemma_decimal_digits, lemma_first_index_is, lemma_first_index_of, lemma_first_index_of_join,
    lemma_last_index_is, lemma_parse_decimal_digits, parse_unsigned, parse_unsigned_range,
    push_chars, push_decimal, trim, trim_end, trim_range, trim_start,
};

verus! {

/// How bad a terminal state is when it ends a task of an array:
/// `Failed > Deadline > NodeFail > Timeout > Cancelled`; every other state is 0.
pub open spec fn failure_rank(s: JobState) -> nat {
    match s {
        JobState::Failed => 5,
        JobState::Deadline => 4,
        JobState::NodeFail => 3,
        JobState::Timeout => 2,
        JobState::Cancelled => 1,
        JobState::Completed | JobState::Pending | JobState::Running | JobState::Completing
        | JobState::Suspended | JobState::Preempted => 0,
    }
}

fn rank_of(s: JobState) -> (r: u8)
    ensures
        r == failure_rank(s),
{
    match s {
        JobState::Failed => 5,
        JobState::Deadline => 4,
        JobState::NodeFail => 3,
        JobState::Timeout => 2,
        JobState::Cancelled => 1,
        JobState::Completed | JobState::Pending | JobState::Running | JobState::Completing
        | JobState::Suspended | JobState::Preempted => 0,
    }
}

/// `w` is the worst state among the tasks that did not complete: it is one of
/// them, and none of them ranks above it.
pub open spec fn is_worst_state(tasks: Seq<JobState>, w: JobState) -> bool {
    &&& w != JobState::Completed
    &&& tasks.contains(w)
    &&& forall|i: int|
        0 <= i < tasks.len() && tasks[i] != JobState::Completed ==> failure_rank(tasks[i])
            <= failure_rank(w)
}

/// The state of an array job whose tasks are in `tasks`: `None` while the
/// array is empty or any task is not terminal; then `Completed` if every task
/// completed, else the worst state among the tasks that did not.
pub open spec fn aggregate_state(tasks: Seq<JobState>) -> Option<JobState> {
    if tasks.len() == 0 || exists|i: int| 0 <= i < tasks.len() && !tasks[i].is_terminal() {
        None
    } else if forall|i: int| 0 <= i < tasks.len() ==> tasks[i] == JobState::Completed {
        Some(JobState::Completed)
    } else {
        Some(choose|w: JobState| is_worst_state(tasks, w))
    }
}

/// Among terminal states, two that did not complete and rank alike are one.
pub proof fn lemma_worst_state_unique(tasks: Seq<JobState>, w1: JobState, w2: JobState)
    requires
        forall|i: int| 0 <= i < tasks.len() ==> tasks[i].is_terminal(),
        is_worst_state(tasks, w1),
        is_worst_state(tasks, w2),
    ensures
        w1 == w2,
{
    let i1 = choose|i: int| 0 <= i < tasks.len() && tasks[i] == w1;
    let i2 = choose|i: int| 0 <= i < tasks.len() && tasks[i] == w2;
    assert(tasks[i1].is_terminal());
    assert(tasks[i2].is_terminal());
    assert(failure_rank(tasks[i2]) <= failure_rank(w1));
    assert(failure_rank(tasks[i1]) <= failure_rank(w2));
}

/// Aggregates an array job's state from its task states (Slurm parity for
/// `scontrol show job <array_job_id>` and array-parent dependency resolution).
pub fn aggregate_array_state(task_states: &[JobState]) -> (r: Option<JobState>)
    ensures
        r == aggregate_state(task_states@),
{
    let n = task_states.len();
    if n == 0 {
        return None;
    }
    let mut i: usize = 0;
    while i < n
        invariant
            n == task_states@.len(),
            i <= n,
            forall|j: int| 0 <= j < i ==> task_states@[j].is_terminal(),
        decreases n - i,
    {
        if !task_states[i].is_terminal() {
            return None;
        }
        i = i + 1;
    }
    let mut i: usize = 0;
    let mut all_completed = true;
    while i < n
        invariant
            n == task_states@.len(),
            i <= n,
            all_completed <==> forall|j: int| 0 <= j < i ==> task_states@[j] == JobState::Completed,
        decreases n - i,
    {
        if task_states[i] != JobState::Completed {
            all_completed = false;
        }
        i = i + 1;
    }
    if all_completed {
        return Some(JobState::Completed);
    }
    let mut worst: Option<JobState> = None;
    let mut worst_rank: u8 = 0;
    let mut i: usize = 0;
    while i < n
        invariant
            n == task_states@.len(),
            i <= n,
            forall|j: int| 0 <= j < n ==> task_states@[j].is_terminal(),
            match worst {
                None => forall|j: int| 0 <= j < i ==> task_states@[j] == JobState::Completed,
                Some(w) => is_worst_state(task_states@.take(i as int), w) && worst_rank
                    == failure_rank(w),
            },
        decreases n - i,
    {
        let s = task_states[i];
        let ghost prefix = task_states@.take(i as int);
        proof {
            assert(task_states@.take(i + 1) =~= prefix.push(s));
        }
        if s != JobState::Completed {
            let k = rank_of(s);
            if worst.is_none() || k >= worst_rank {
                worst = Some(s);
                worst_rank = k;
            }
        }
        proof {
            let next = task_states@.take(i + 1);
            match worst {
                Some(w) => {
                    if w == s {
                        assert(next[i as int] == s);
                    } else {
                        let k = choose|k: int| 0 <= k < prefix.len() && prefix[k] == w;
                        assert(next[k] == w);
                    }
                },
                None => {},
            }
        }
        i = i + 1;
    }
    proof {
        assert(task_states@.take(n as int) =~= task_states@);
        let w = worst->0;
        assert(is_worst_state(task_states@, w));
        lemma_worst_state_unique(task_states@, w, choose|x: JobState| is_worst_state(task_states@, x));
    }
    worst
}

/// The largest number of task ids (counted before duplicates are removed) that
/// an array spec may expand to.
pub const MAX_ARRAY_SIZE: usize = 100000;

/// A parsed job array spec.
#[derive(Debug, Clone)]
pub struct ArraySpec {
    /// Individual task ids, ascending, each once.
    pub task_ids: Vec<u32>,
    /// Max concurrent tasks (0 = unlimited).
    pub max_concurrent: u32,
}

/// Why an array spec was refused.
#[derive(Debug)]
pub enum ArrayError {
    /// "invalid array spec: {0}"
    InvalidSpec(String),
    /// "array too large: {count} tasks (max {max})"
    TooLarge { count: usize, max: usize },
}

/// What one comma-separated part of a spec contributes.
pub enum PartOutcome {
    /// The part is blank.
    Skip,
    /// The task ids the part names, in the order the part lists them.
    Ids(Seq<u32>),
    /// The part is malformed; the message of the `InvalidSpec` error.
    Invalid(Seq<char>),
}

/// What the comma-separated parts of a spec, taken in order, contribute.
pub enum Expansion {
    Ids(Seq<u32>),
    Invalid(Seq<char>),
}

/// What parsing a whole spec gives.
pub enum ArrayOutcome {
    /// `ids` is the expansion before sorting and removing duplicates.
    Parsed { ids: Seq<u32>, max_concurrent: u32 },
    /// An `InvalidSpec` error with this message.
    Invalid(Seq<char>),
    /// A `TooLarge` error for an expansion of this many ids.
    TooLarge(nat),
    /// The expansion has more ids than a `usize` can count, more than any
    /// memory holds.
    Diverges,
}

/// The ids `start`, `start + step`, ... up to `end`.
pub open spec fn range_ids(start: nat, end: nat, step: nat) -> Seq<u32> {
    if start > end {
        Seq::empty()
    } else {
        Seq::new(((end - start) / (step as int) + 1) as nat, |j: int| (start + j * step) as u32)
    }
}

/// One part, as the parser reads it: trimmed; blank parts are skipped; an
/// optional `:step` (default 1, never 0); then either `start-end` with
/// `start <= end`, or a single id. Numbers parse as `u32` does.
pub open spec fn part_outcome(raw: Seq<char>) -> PartOutcome {
    let p = trim(raw);
    let colon = first_index_of(p, ':');
    let r = p.take(colon);
    let step_text = if colon < p.len() {
        p.skip(colon + 1)
    } else {
        Seq::empty()
    };
    let step = if colon < p.len() {
        parse_unsigned(step_text, u32::MAX as nat)
    } else {
        Some(1nat)
    };
    let dash = first_index_of(r, '-');
    let start_text = r.take(dash);
    let end_text = if dash < r.len() {
        r.skip(dash + 1)
    } else {
        Seq::empty()
    };
    if p.len() == 0 {
        PartOutcome::Skip
    } else if step is None {
        PartOutcome::Invalid("invalid step: "@ + step_text)
    } else if step->0 == 0 {
        PartOutcome::Invalid("step cannot be 0"@)
    } else if dash < r.len() {
        let start = parse_unsigned(start_text, u32::MAX as nat);
        let end = parse_unsigned(end_text, u32::MAX as nat);
        if start is None {
            PartOutcome::Invalid("invalid start: "@ + start_text)
        } else if end is None {
            PartOutcome::Invalid("invalid end: "@ + end_text)
        } else if start->0 > end->0 {
            PartOutcome::Invalid(decimal_digits(start->0) + " > "@ + decimal_digits(end->0))
        } else {
            PartOutcome::Ids(range_ids(start->0, end->0, step->0))
        }
    } else {
        match parse_unsigned(r, u32::MAX as nat) {
            None => PartOutcome::Invalid("invalid id: "@ + r),
            Some(id) => PartOutcome::Ids(seq![id as u32]),
        }
    }
}

/// The parts of `r` split at each `,`, taken from the first: the ids of all
/// parts in order, or what the first part that does not give ids gives.
pub open spec fn expand_parts(r: Seq<char>) -> Expansion
    decreases r.len(),
{
    let k = first_index_of(r, ',');
    let rest = if k < r.len() {
        proof {
            lemma_first_index_of(r, ',');
        }
        expand_parts(r.skip(k + 1))
    } else {
        Expansion::Ids(Seq::empty())
    };
    match part_outcome(r.take(k)) {
        PartOutcome::Skip => rest,
        PartOutcome::Invalid(m) => Expansion::Invalid(m),
        PartOutcome::Ids(ids) => match rest {
            Expansion::Ids(more) => Expansion::Ids(ids + more),
            other => other,
        },
    }
}

/// A whole spec: trimmed, not empty; an optional `%limit` after the last `%`
/// (default 0); the parts before it; at most `MAX_ARRAY_SIZE` ids.
pub open spec fn array_spec_outcome(s: Seq<char>) -> ArrayOutcome {
    let t = trim(s);
    let pct = last_index_of(t, '%');
    let ranges = if pct >= 0 {
        t.take(pct)
    } else {
        t
    };
    let limit_text = if pct >= 0 {
        t.skip(pct + 1)
    } else {
        Seq::empty()
    };
    let limit = if pct >= 0 {
        parse_unsigned(limit_text, u32::MAX as nat)
    } else {
        Some(0nat)
    };
    if t.len() == 0 {
        ArrayOutcome::Invalid("empty spec"@)
    } else if limit is None {
        ArrayOutcome::Invalid("invalid limit: "@ + limit_text)
    } else {
        finish_expansion(expand_parts(ranges), limit->0 as u32)
    }
}

/// The outcome of a spec whose parts expand to `e` and whose limit is `limit`.
pub open spec fn finish_expansion(e: Expansion, limit: u32) -> ArrayOutcome {
    match e {
        Expansion::Invalid(m) => ArrayOutcome::Invalid(m),
        Expansion::Ids(ids) => if ids.len() > usize::MAX {
            ArrayOutcome::Diverges
        } else if ids.len() > MAX_ARRAY_SIZE {
            ArrayOutcome::TooLarge(ids.len())
        } else {
            ArrayOutcome::Parsed { ids, max_concurrent: limit }
        },
    }
}

/// `r` is what parsing a spec with outcome `o` returns.
pub open spec fn parse_result_matches(o: ArrayOutcome, r: Result<ArraySpec, ArrayError>) -> bool {
    match o {
        ArrayOutcome::Parsed { ids, max_concurrent } => {
            &&& r is Ok
            &&& strictly_increasing(r->Ok_0.task_ids@)
            &&& r->Ok_0.task_ids@.to_set() == ids.to_set()
            &&& r->Ok_0.max_concurrent == max_concurrent
        },
        ArrayOutcome::Invalid(m) => r matches Err(ArrayError::InvalidSpec(msg)) && msg@ == m,
        ArrayOutcome::TooLarge(n) => r matches Err(ArrayError::TooLarge { count, max }) && count
            == n && max == MAX_ARRAY_SIZE,
        ArrayOutcome::Diverges => false,
    }
}

/// What the expansion of one part did.
enum PartStep {
    Done,
    Invalid(String),
}

proof fn lemma_range_last(start: int, end: int, step: int, j: int)
    requires
        0 <= start <= end,
        step > 0,
        0 <= j <= (end - start) / step,
    ensures
        0 <= j * step <= ((end - start) / step) * step <= end - start,
{
    let k = (end - start) / step;
    vstd::arithmetic::div_mod::lemma_fundamental_div_mod(end - start, step);
    vstd::arithmetic::div_mod::lemma_mod_pos_bound(end - start, step);
    vstd::arithmetic::mul::lemma_mul_inequality(j, k, step);
    vstd::arithmetic::mul::lemma_mul_nonnegative(j, step);
    assert(k * step == step * k) by {
        vstd::arithmetic::mul::lemma_mul_is_commutative(k, step);
    }
}

/// Appends the ids of the range `start..=end` by `step`.
fn push_range(ids: &mut Vec<u32>, start: u32, end: u32, step: u32, count: u64)
    requires
        start <= end,
        step > 0,
        count == (end - start) / (step as int) + 1,
    ensures
        final(ids)@ == old(ids)@ + range_ids(start as nat, end as nat, step as nat),
{
    let ghost expected = range_ids(start as nat, end as nat, step as nat);
    let mut j: u64 = 0;
    let mut cur: u64 = start as u64;
    while j < count
        invariant
            start <= end,
            step > 0,
            count == (end - start) / (step as int) + 1,
            expected == range_ids(start as nat, end as nat, step as nat),
            j <= count,
            cur == start + j * step,
            ids@ == old(ids)@ + expected.take(j as int),
        decreases count - j,
    {
        proof {
            lemma_range_last(start as int, end as int, step as int, j as int);
        }
        ids.push(cur as u32);
        proof {
            assert(expected[j as int] == cur as u32);
            assert(expected.take(j + 1) =~= expected.take(j as int).push(cur as u32));
            assert((j + 1) * step == j * step + step) by {
                vstd::arithmetic::mul::lemma_mul_is_distributive_add_other_way(step as int, j as int, 1);
            }
        }
        cur = cur + step as u64;
        j = j + 1;
    }
    proof {
        assert(expected.take(j as int) =~= expected);
    }
}

/// Expands the part `v[lo..hi]`: on `Done`, its ids are counted in `total` and,
/// while `total` stays within `MAX_ARRAY_SIZE`, appended to `ids`.
fn expand_part(v: &Vec<char>, lo: usize, hi: usize, ids: &mut Vec<u32>, total: &mut u128) -> (r:
    PartStep)
    requires
        lo <= hi <= v.len(),
        *old(total) <= u128::MAX - 0x1_0000_0000,
    ensures
        match part_outcome(v@.subrange(lo as int, hi as int)) {
            PartOutcome::Skip => r is Done && *final(total) == *old(total) && final(ids)@ == old(
                ids,
            )@,
            PartOutcome::Ids(x) => {
                &&& r is Done
                &&& *final(total) == *old(total) + x.len()
                &&& x.len() <= 0x1_0000_0000
                &&& *final(total) <= MAX_ARRAY_SIZE ==> final(ids)@ == old(ids)@ + x
            },
            PartOutcome::Invalid(m) => r matches PartStep::Invalid(msg) && msg@ == m,
        },
{
    let ghost raw = v@.subrange(lo as int, hi as int);
    let ghost out = part_outcome(raw);
    let (plo, phi) = trim_range(v, lo, hi);
    let ghost p = trim(raw);
    assert(p == v@.subrange(plo as int, phi as int));
    if plo == phi {
        return PartStep::Done;
    }
    let colon = find_first(v, plo, phi, ':');
    let ghost r = p.take(colon - plo);
    assert(r =~= v@.subrange(plo as int, colon as int));
    let step: u32;
    if colon < phi {
        assert(p.skip(colon - plo + 1) =~= v@.subrange(colon + 1, phi as int));
        match parse_unsigned_range(v, colon + 1, phi, 0xffff_ffff) {
            None => {
                let mut m = String::from_str("invalid step: ");
                push_chars(&mut m, v, colon + 1, phi);
                return PartStep::Invalid(m);
            },
            Some(s) => {
                step = s as u32;
            },
        }
        if step == 0 {
            return PartStep::Invalid(String::from_str("step cannot be 0"));
        }
    } else {
        step = 1;
    }
    let dash = find_first(v, plo, colon, '-');
    assert(r.take(dash - plo) =~= v@.subrange(plo as int, dash as int));
    if dash < colon {
        assert(r.skip(dash - plo + 1) =~= v@.subrange(dash + 1, colon as int));
        let start = match parse_unsigned_range(v, plo, dash, 0xffff_ffff) {
            None => {
                let mut m = String::from_str("invalid start: ");
                push_chars(&mut m, v, plo, dash);
                return PartStep::Invalid(m);
            },
            Some(n) => n as u32,
        };
        let end = match parse_unsigned_range(v, dash + 1, colon, 0xffff_ffff) {
            None => {
                let mut m = String::from_str("invalid end: ");
                push_chars(&mut m, v, dash + 1, colon);
                return PartStep::Invalid(m);
            },
            Some(n) => n as u32,
        };
        if start > end {
            let mut m = String::new();
            push_decimal(&mut m, start);
            m.append(" > ");
            push_decimal(&mut m, end);
            return PartStep::Invalid(m);
        }
        let count: u64 = ((end - start) / step) as u64 + 1;
        *total = *total + count as u128;
        if *total <= MAX_ARRAY_SIZE as u128 {
            push_range(ids, start, end, step, count);
        }
        PartStep::Done
    } else {
        match parse_unsigned_range(v, plo, colon, 0xffff_ffff) {
            None => {
                let mut m = String::from_str("invalid id: ");
                push_chars(&mut m, v, plo, colon);
                PartStep::Invalid(m)
            },
            Some(id) => {
                *total = *total + 1;
                if *total <= MAX_ARRAY_SIZE as u128 {
                    ids.push(id as u32);
                }
                PartStep::Done
            },
        }
    }
}

/// The expansion `e` of the parts that follow ids `done`.
pub open spec fn after(done: Seq<u32>, e: Expansion) -> Expansion {
    match e {
        Expansion::Ids(more) => Expansion::Ids(done + more),
        other => other,
    }
}

/// Parses an array spec such as `"0-99%10"`; `None` exactly where the
/// expansion has more ids than a `usize` can count (`ArrayOutcome::Diverges`).
pub fn parse_array_spec_checked(spec: &str) -> (r: Option<Result<ArraySpec, ArrayError>>)
    ensures
        match r {
            None => array_spec_outcome(spec@) is Diverges,
            Some(res) => parse_result_matches(array_spec_outcome(spec@), res),
        },
{
    let v = chars_of(spec);
    proof {
        assert(v@.subrange(0, v@.len() as int) =~= v@);
    }
    let (lo, hi) = trim_range(&v, 0, v.len());
    let ghost t = trim(spec@);
    if lo == hi {
        return Some(Err(ArrayError::InvalidSpec(String::from_str("empty spec"))));
    }
    let rlo = lo;
    let rhi: usize;
    let limit: u32;
    match find_last(&v, lo, hi, '%') {
        Some(k) => {
            assert(t.skip(k - lo + 1) =~= v@.subrange(k + 1, hi as int));
            match parse_unsigned_range(&v, k + 1, hi, 0xffff_ffff) {
                Some(l) => {
                    rhi = k;
                    limit = l as u32;
                },
                None => {
                    let mut m = String::from_str("invalid limit: ");
                    push_chars(&mut m, &v, k + 1, hi);
                    return Some(Err(ArrayError::InvalidSpec(m)));
                },
            }
            assert(t.take(k - lo) =~= v@.subrange(lo as int, k as int));
        },
        None => {
            rhi = hi;
            limit = 0;
        },
    }
    let ghost ranges = v@.subrange(rlo as int, rhi as int);
    let mut ids: Vec<u32> = Vec::new();
    let mut total: u128 = 0;
    let mut pos = rlo;
    let ghost mut done: Seq<u32> = Seq::empty();
    proof {
        assert(done + Seq::<u32>::empty() =~= done);
        assert(after(done, expand_parts(ranges)) == expand_parts(ranges)) by {
            match expand_parts(ranges) {
                Expansion::Ids(more) => {
                    assert(done + more =~= more);
                },
                _ => {},
            }
        }
    }
    loop
        invariant_except_break
            expand_parts(ranges) == after(done, expand_parts(v@.subrange(pos as int, rhi as int))),
            total <= (pos - rlo) * 0x1_0000_0000,
        invariant
            rlo <= pos <= rhi <= v.len(),
            ranges == v@.subrange(rlo as int, rhi as int),
            array_spec_outcome(spec@) == finish_expansion(expand_parts(ranges), limit),
            total == done.len(),
            total <= MAX_ARRAY_SIZE ==> ids@ == done,
        ensures
            array_spec_outcome(spec@) == finish_expansion(expand_parts(ranges), limit),
            expand_parts(ranges) == Expansion::Ids(done),
            total == done.len(),
            total <= MAX_ARRAY_SIZE ==> ids@ == done,
        decreases rhi - pos,
    {
        let k = find_first(&v, pos, rhi, ',');
        let ghost rest = v@.subrange(pos as int, rhi as int);
        let ghost piece = v@.subrange(pos as int, k as int);
        proof {
            assert(rest.take(k - pos) =~= piece);
        }
        let ghost old_done = done;
        let step = expand_part(&v, pos, k, &mut ids, &mut total);
        match step {
            PartStep::Invalid(m) => {
                return Some(Err(ArrayError::InvalidSpec(m)));
            },
            PartStep::Done => {},
        }
        proof {
            match part_outcome(piece) {
                PartOutcome::Ids(x) => {
                    done = old_done + x;
                },
                _ => {},
            }
        }
        if k == rhi {
            proof {
                match part_outcome(piece) {
                    PartOutcome::Ids(x) => {
                        assert(x + Seq::<u32>::empty() =~= x);
                    },
                    _ => {},
                }
            }
            break;
        }
        proof {
            assert(rest.skip(k - pos + 1) =~= v@.subrange(k + 1, rhi as int));
            match part_outcome(piece) {
                PartOutcome::Ids(x) => {
                    match expand_parts(v@.subrange(k + 1, rhi as int)) {
                        Expansion::Ids(more) => {
                            assert(old_done + (x + more) =~= (old_done + x) + more);
                        },
                        _ => {},
                    }
                },
                _ => {},
            }
        }
        pos = k + 1;
    }
    if total > usize::MAX as u128 {
        return None;
    }
    if total > MAX_ARRAY_SIZE as u128 {
        return Some(Err(ArrayError::TooLarge { count: total as usize, max: MAX_ARRAY_SIZE }));
    }
    let task_ids = sorted_distinct(&ids, 0, ids.len());
    proof {
        assert(ids@.subrange(0, ids@.len() as int) =~= ids@);
    }
    Some(Ok(ArraySpec { task_ids, max_concurrent: limit }))
}

/// Parses an array spec such as `"0-99%10"`: trims it, splits off the
/// concurrency limit after the last `%`, expands each comma-separated part,
/// refuses more than `MAX_ARRAY_SIZE` ids, and returns the ids ascending with
/// duplicates removed.
pub fn parse_array_spec(spec: &str) -> (r: Result<ArraySpec, ArrayError>)
    requires
        !(array_spec_outcome(spec@) is Diverges),
    ensures
        parse_result_matches(array_spec_outcome(spec@), r),
{
    parse_array_spec_checked(spec).unwrap()
}

/// A spec's parts are expanded in order: the parts of `a,b` give the ids of
/// the parts of `a` followed by those of `b`, unless a part of `a` already
/// stops the expansion.
pub proof fn lemma_expand_parts_join(a: Seq<char>, b: Seq<char>)
    ensures
        expand_parts(a + seq![','] + b) == match expand_parts(a) {
            Expansion::Ids(ids) => after(ids, expand_parts(b)),
            other => other,
        },
    decreases a.len(),
{
    let s = a + seq![','] + b;
    lemma_first_index_of_join(a, ',', b);
    lemma_first_index_of(a, ',');
    let k = first_index_of(a, ',');
    assert(s.take(k) =~= a.take(k));
    if k < a.len() {
        let a2 = a.skip(k + 1);
        assert(s.skip(k + 1) =~= a2 + seq![','] + b);
        lemma_expand_parts_join(a2, b);
        match part_outcome(a.take(k)) {
            PartOutcome::Ids(x) => {
                match expand_parts(a2) {
                    Expansion::Ids(y) => {
                        match expand_parts(b) {
                            Expansion::Ids(z) => {
                                assert(x + (y + z) =~= (x + y) + z);
                            },
                            _ => {},
                        }
                    },
                    _ => {},
                }
            },
            _ => {},
        }
    } else {
        assert(a.take(k) =~= a);
        assert(s.skip(k + 1) =~= b);
        match expand_parts(b) {
            Expansion::Ids(z) => {
                assert(Seq::<u32>::empty() + z =~= z);
            },
            _ => {},
        }
        match part_outcome(a) {
            PartOutcome::Ids(x) => {
                assert(x + Seq::<u32>::empty() =~= x);
            },
            _ => {},
        }
    }
}

/// Among terminal task states of which not all completed, there is a worst.
pub proof fn lemma_worst_state_exists(tasks: Seq<JobState>)
    requires
        exists|i: int| 0 <= i < tasks.len() && tasks[i] != JobState::Completed,
    ensures
        exists|w: JobState| is_worst_state(tasks, w),
    decreases tasks.len(),
{
    let init = tasks.drop_last();
    let x = tasks.last();
    if exists|i: int| 0 <= i < init.len() && init[i] != JobState::Completed {
        lemma_worst_state_exists(init);
        let w = choose|w: JobState| is_worst_state(init, w);
        let k = choose|k: int| 0 <= k < init.len() && init[k] == w;
        assert(tasks[k] == w);
        if x != JobState::Completed && failure_rank(x) > failure_rank(w) {
            assert(tasks[tasks.len() - 1] == x);
            assert forall|i: int|
                0 <= i < tasks.len() && tasks[i] != JobState::Completed implies failure_rank(
                tasks[i],
            ) <= failure_rank(x) by {
                if i < init.len() {
                    assert(tasks[i] == init[i]);
                }
            }
            assert(is_worst_state(tasks, x));
        } else {
            assert forall|i: int|
                0 <= i < tasks.len() && tasks[i] != JobState::Completed implies failure_rank(
                tasks[i],
            ) <= failure_rank(w) by {
                if i < init.len() {
                    assert(tasks[i] == init[i]);
                }
            }
            assert(is_worst_state(tasks, w));
        }
    } else {
        assert(x != JobState::Completed) by {
            let i = choose|i: int| 0 <= i < tasks.len() && tasks[i] != JobState::Completed;
            if i < init.len() {
                assert(init[i] == tasks[i]);
            }
        }
        assert(tasks[tasks.len() - 1] == x);
        assert forall|i: int|
            0 <= i < tasks.len() && tasks[i] != JobState::Completed implies failure_rank(tasks[i])
            <= failure_rank(x) by {
            if i < init.len() {
                assert(tasks[i] == init[i]);
            }
        }
        assert(is_worst_state(tasks, x));
    }
}

/// A failure is never masked: once every task is terminal, a task that did not
/// complete makes the array's state a state other than `Completed` that ranks
/// at least as high as that task's.
pub proof fn lemma_failure_never_masked(tasks: Seq<JobState>, i: int)
    requires
        forall|j: int| 0 <= j < tasks.len() ==> tasks[j].is_terminal(),
        0 <= i < tasks.len(),
        tasks[i] != JobState::Completed,
    ensures
        aggregate_state(tasks) matches Some(w) && w != JobState::Completed && failure_rank(
            tasks[i],
        ) <= failure_rank(w),
{
    lemma_worst_state_exists(tasks);
}

/// The state of an array depends only on which states its tasks are in: not
/// on their order, nor on how many tasks share a state.
pub proof fn lemma_aggregate_depends_on_states_only(a: Seq<JobState>, b: Seq<JobState>)
    requires
        a.to_set() == b.to_set(),
    ensures
        aggregate_state(a) == aggregate_state(b),
{
    assert forall|x: JobState| a.contains(x) <==> b.contains(x) by {
        assert(a.to_set().contains(x) == a.contains(x));
        assert(b.to_set().contains(x) == b.contains(x));
    }
    assert(a.len() == 0 <==> b.len() == 0) by {
        if a.len() > 0 {
            assert(a.contains(a[0]));
        }
        if b.len() > 0 {
            assert(b.contains(b[0]));
        }
    }
    assert((exists|i: int| 0 <= i < a.len() && !a[i].is_terminal()) <==> (exists|i: int|
        0 <= i < b.len() && !b[i].is_terminal())) by {
        if exists|i: int| 0 <= i < a.len() && !a[i].is_terminal() {
            let i = choose|i: int| 0 <= i < a.len() && !a[i].is_terminal();
            assert(a.contains(a[i]));
        }
        if exists|i: int| 0 <= i < b.len() && !b[i].is_terminal() {
            let i = choose|i: int| 0 <= i < b.len() && !b[i].is_terminal();
            assert(b.contains(b[i]));
        }
    }
    assert((forall|i: int| 0 <= i < a.len() ==> a[i] == JobState::Completed) <==> (forall|i: int|
        0 <= i < b.len() ==> b[i] == JobState::Completed)) by {
        if forall|i: int| 0 <= i < a.len() ==> a[i] == JobState::Completed {
            assert forall|i: int| 0 <= i < b.len() implies b[i] == JobState::Completed by {
                assert(b.contains(b[i]));
            }
        }
        if forall|i: int| 0 <= i < b.len() ==> b[i] == JobState::Completed {
            assert forall|i: int| 0 <= i < a.len() implies a[i] == JobState::Completed by {
                assert(a.contains(a[i]));
            }
        }
    }
    if aggregate_state(a) is Some && !(forall|i: int|
        0 <= i < a.len() ==> a[i] == JobState::Completed) {
        lemma_worst_state_exists(a);
        lemma_worst_state_exists(b);
        let wa = choose|w: JobState| is_worst_state(a, w);
        let wb = choose|w: JobState| is_worst_state(b, w);
        assert(is_worst_state(b, wa)) by {
            assert forall|i: int|
                0 <= i < b.len() && b[i] != JobState::Completed implies failure_rank(b[i])
                <= failure_rank(wa) by {
                assert(b.contains(b[i]));
                let j = choose|j: int| 0 <= j < a.len() && a[j] == b[i];
            }
        }
        lemma_worst_state_unique(b, wa, wb);
    }
}

/// Once every task is terminal, the array's state follows the precedence
/// Failed > Deadline > NodeFail > Timeout > Cancelled: it is the first of these
/// that some task is in, and `Completed` where no task is in any of them.
pub proof fn lemma_aggregate_precedence(tasks: Seq<JobState>)
    requires
        tasks.len() > 0,
        forall|j: int| 0 <= j < tasks.len() ==> tasks[j].is_terminal(),
    ensures
        aggregate_state(tasks) == if tasks.contains(JobState::Failed) {
            Some(JobState::Failed)
        } else if tasks.contains(JobState::Deadline) {
            Some(JobState::Deadline)
        } else if tasks.contains(JobState::NodeFail) {
            Some(JobState::NodeFail)
        } else if tasks.contains(JobState::Timeout) {
            Some(JobState::Timeout)
        } else if tasks.contains(JobState::Cancelled) {
            Some(JobState::Cancelled)
        } else {
            Some(JobState::Completed)
        },
{
    assert(!(exists|i: int| 0 <= i < tasks.len() && !tasks[i].is_terminal()));
    if forall|i: int| 0 <= i < tasks.len() ==> tasks[i] == JobState::Completed {
        assert(!tasks.contains(JobState::Failed));
        assert(!tasks.contains(JobState::Deadline));
        assert(!tasks.contains(JobState::NodeFail));
        assert(!tasks.contains(JobState::Timeout));
        assert(!tasks.contains(JobState::Cancelled));
    } else {
        lemma_worst_state_exists(tasks);
        let w = choose|w: JobState| is_worst_state(tasks, w);
        assert(aggregate_state(tasks) == Some(w));
        let k = choose|k: int| 0 <= k < tasks.len() && tasks[k] == w;
        assert(tasks[k].is_terminal());
        if tasks.contains(JobState::Failed) {
            let i = choose|i: int| 0 <= i < tasks.len() && tasks[i] == JobState::Failed;
            assert(failure_rank(tasks[i]) <= failure_rank(w));
        } else if tasks.contains(JobState::Deadline) {
            let i = choose|i: int| 0 <= i < tasks.len() && tasks[i] == JobState::Deadline;
            assert(failure_rank(tasks[i]) <= failure_rank(w));
            assert(w != JobState::Failed);
        } else if tasks.contains(JobState::NodeFail) {
            let i = choose|i: int| 0 <= i < tasks.len() && tasks[i] == JobState::NodeFail;
            assert(failure_rank(tasks[i]) <= failure_rank(w));
            assert(w != JobState::Failed && w != JobState::Deadline);
        } else if tasks.contains(JobState::Timeout) {
            let i = choose|i: int| 0 <= i < tasks.len() && tasks[i] == JobState::Timeout;
            assert(failure_rank(tasks[i]) <= failure_rank(w));
            assert(w != JobState::Failed && w != JobState::Deadline && w != JobState::NodeFail);
        } else if tasks.contains(JobState::Cancelled) {
            assert(w != JobState::Failed && w != JobState::Deadline && w != JobState::NodeFail
                && w != JobState::Timeout);
        } else {
            assert(w != JobState::Failed && w != JobState::Deadline && w != JobState::NodeFail
                && w != JobState::Timeout && w != JobState::Cancelled);
        }
    }
}

/// The range `start-end:step` holds exactly the ids from `start` to `end`
/// that lie a whole number of steps past `start`.
pub proof fn lemma_range_ids_members(start: nat, end: nat, step: nat)
    requires
        start <= end <= u32::MAX,
        step > 0,
    ensures
        forall|x: u32|
            range_ids(start, end, step).contains(x) <==> (start <= x <= end && (x - start) % (
            step as int) == 0),
{
    let k = (end - start) / (step as int);
    let ids = range_ids(start, end, step);
    assert forall|x: u32|
        ids.contains(x) <==> (start <= x <= end && (x - start) % (step as int) == 0) by {
        if ids.contains(x) {
            let j = choose|j: int| 0 <= j < ids.len() && ids[j] == x;
            lemma_range_last(start as int, end as int, step as int, j);
            assert(ids[j] == (start + j * step) as u32);
            assert(x == start + j * step);
            vstd::arithmetic::div_mod::lemma_mod_multiples_basic(j, step as int);
            assert(x - start == j * step);
        }
        if start <= x <= end && (x - start) % (step as int) == 0 {
            let j = (x - start) / (step as int);
            vstd::arithmetic::div_mod::lemma_fundamental_div_mod(x - start, step as int);
            vstd::arithmetic::div_mod::lemma_div_is_ordered(x - start, end - start, step as int);
            vstd::arithmetic::div_mod::lemma_div_pos_is_pos(x - start, step as int);
            vstd::arithmetic::mul::lemma_mul_is_commutative(j, step as int);
            assert(x - start == j * step);
            assert(0 <= j <= k);
            assert(ids[j] == x);
        }
    }
}

/// A spec that is one range `a-b:s` gives exactly the ids from `a` to `b` a
/// whole number of steps past `a`, with no concurrency limit; or, where there
/// are more than `MAX_ARRAY_SIZE` of them, `TooLarge` with their number.
pub proof fn lemma_range_spec(a: nat, b: nat, s: nat)
    requires
        a <= b <= u32::MAX,
        0 < s <= u32::MAX,
        (b - a) / (s as int) + 1 <= usize::MAX,
    ensures
        ({
            let spec = decimal_digits(a) + seq!['-'] + decimal_digits(b) + seq![':']
                + decimal_digits(s);
            let count = (b - a) / (s as int) + 1;
            match array_spec_outcome(spec) {
                ArrayOutcome::Parsed { ids, max_concurrent } => {
                    &&& count <= MAX_ARRAY_SIZE
                    &&& max_concurrent == 0
                    &&& forall|x: u32|
                        ids.contains(x) <==> (a <= x <= b && (x - a) % (s as int) == 0)
                },
                ArrayOutcome::TooLarge(n) => n == count && count > MAX_ARRAY_SIZE,
                _ => false,
            }
        }),
{
    let da = decimal_digits(a);
    let db = decimal_digits(b);
    let ds = decimal_digits(s);
    lemma_decimal_digits(a);
    lemma_decimal_digits(b);
    lemma_decimal_digits(s);
    lemma_parse_decimal_digits(a, u32::MAX as nat);
    lemma_parse_decimal_digits(b, u32::MAX as nat);
    lemma_parse_decimal_digits(s, u32::MAX as nat);
    let r = da + seq!['-'] + db;
    let spec = r + seq![':'] + ds;
    assert(spec =~= decimal_digits(a) + seq!['-'] + decimal_digits(b) + seq![':']
        + decimal_digits(s));
    let na = da.len() as int;
    let nr = r.len() as int;
    // Every character is a digit, the `-` or the `:`.
    assert forall|i: int| 0 <= i < spec.len() implies (is_digit(#[trigger] spec[i]) || (i == na
        && spec[i] == '-') || (i == nr && spec[i] == ':')) by {
        if i < na {
            assert(spec[i] == da[i]);
        } else if i == na {
        } else if i < nr {
            assert(spec[i] == db[i - na - 1]);
        } else if i == nr {
        } else {
            assert(spec[i] == ds[i - nr - 1]);
        }
    }
    assert(is_digit(spec[0]));
    assert(is_digit(spec[spec.len() - 1]));
    assert(trim_start(spec) == spec);
    assert(trim_end(spec) == spec);
    assert(trim(spec) == spec);
    lemma_last_index_is(spec, '%', -1);
    lemma_first_index_is(spec, ',', spec.len() as int);
    assert(spec.take(spec.len() as int) =~= spec);
    lemma_first_index_is(spec, ':', nr);
    assert(spec.take(nr) =~= r);
    assert(spec.skip(nr + 1) =~= ds);
    assert forall|i: int| 0 <= i < na implies #[trigger] r[i] != '-' by {
        assert(r[i] == spec[i]);
    }
    assert(r[na] == '-');
    lemma_first_index_is(r, '-', na);
    assert(r.take(na) =~= da);
    assert(r.skip(na + 1) =~= db);
    let ids = range_ids(a, b, s);
    assert(part_outcome(spec) == PartOutcome::Ids(ids));
    assert(ids + Seq::<u32>::empty() =~= ids);
    assert(expand_parts(spec) == Expansion::Ids(ids));
    lemma_range_ids_members(a, b, s);
}

} // verus!
