//! Burst-buffer (BB) staging model.
//!
//! A job's `--bb` string carries both stage-in/stage-out shell directives
//! (consumed by the node agent) and an optional cluster-wide capacity
//! reservation. This module owns the capacity grammar and the per-job staging
//! state so the controller and the agent agree on how `--bb` is parsed.
use vstd::prelude::*;

use crate::text::{
    chars_of, decimal_digits, digit_run, digit_run_end, find_first, first_index_of, is_digit,
    is_white_space, lemma_decimal_digits, lemma_digit_run_is, lemma_first_index_is,
    lemma_first_index_of, lemma_first_index_of_join, lemma_parse_decimal_digits, trim_end,
    trim_start, parse_unsigned, parse_unsigned_range, trim,
    trim_range,
};

verus! {

/// Per-job burst-buffer staging phase, advanced controller-side.
///
/// A job requesting BB capacity moves `None -> Staging` once its capacity is
/// reserved, then `Staging -> Ready` once stage-in completes. Only a `Ready`
/// (or `None`, i.e. no BB) job is dispatchable.
#[derive(Debug, Clone, Copy, PartialEq, Eq, Structural)]
pub enum BbStageState {
    /// No BB capacity requested, or none reserved yet.
    Unreserved,
    /// Capacity reserved; stage-in in progress (job held off dispatch).
    Staging,
    /// Stage-in complete; the job may be dispatched.
    Ready,
}

impl Default for BbStageState {
    fn default() -> (s: Self)
        ensures
            s == BbStageState::Unreserved,
    {
        BbStageState::Unreserved
    }
}

/// The key of a capacity directive.
pub open spec fn capacity_key() -> Seq<char> {
    seq!['c', 'a', 'p', 'a', 'c', 'i', 't', 'y', '=']
}

/// The gibibytes one directive reserves: a trimmed directive that starts with
/// `capacity=` reserves the number its trimmed value starts with (a trailing
/// unit such as `GB` is ignored); any other directive, or a value that does not
/// start with a number that fits a `u64`, reserves 0.
pub open spec fn directive_capacity(raw: Seq<char>) -> nat {
    let d = trim(raw);
    if is_capacity_directive(d) {
        let val = trim(d.skip(9));
        match parse_unsigned(val.take(digit_run(val) as int), u64::MAX as nat) {
            Some(n) => n,
            None => 0,
        }
    } else {
        0
    }
}

/// The gibibytes that the `;`-separated directives of `bb` reserve together.
pub open spec fn capacity_sum(bb: Seq<char>) -> nat
    decreases bb.len(),
{
    let k = first_index_of(bb, ';');
    directive_capacity(bb.take(k)) + if k < bb.len() {
        proof {
            lemma_first_index_of(bb, ';');
        }
        capacity_sum(bb.skip(k + 1))
    } else {
        0
    }
}

/// The sum, where it fits a `u64`; `u64::MAX` where it does not.
pub open spec fn saturate(n: nat) -> u64 {
    if n > u64::MAX {
        u64::MAX
    } else {
        n as u64
    }
}

/// The BB capacity (in GiB) that a `--bb` string reserves.
pub open spec fn capacity_gb(bb: Seq<char>) -> u64 {
    saturate(capacity_sum(bb))
}

fn starts_with_capacity_key(v: &Vec<char>, lo: usize, hi: usize) -> (b: bool)
    requires
        lo <= hi <= v.len(),
    ensures
        b == (hi - lo >= 9 && v@.subrange(lo as int, lo + 9) == capacity_key()),
{
    if hi - lo < 9 {
        return false;
    }
    let b = v[lo] == 'c' && v[lo + 1] == 'a' && v[lo + 2] == 'p' && v[lo + 3] == 'a' && v[lo + 4]
        == 'c' && v[lo + 5] == 'i' && v[lo + 6] == 't' && v[lo + 7] == 'y' && v[lo + 8] == '=';
    proof {
        let s = v@.subrange(lo as int, lo + 9);
        if b {
            assert(s =~= capacity_key());
        } else {
            assert(s != capacity_key()) by {
                if s == capacity_key() {
                    assert(s[0] == v@[lo as int]);
                    assert(s[1] == v@[lo + 1]);
                    assert(s[2] == v@[lo + 2]);
                    assert(s[3] == v@[lo + 3]);
                    assert(s[4] == v@[lo + 4]);
                    assert(s[5] == v@[lo + 5]);
                    assert(s[6] == v@[lo + 6]);
                    assert(s[7] == v@[lo + 7]);
                    assert(s[8] == v@[lo + 8]);
                }
            }
        }
    }
    b
}

/// The gibibytes the directive `v[lo..hi]` reserves.
fn directive_capacity_of(v: &Vec<char>, lo: usize, hi: usize) -> (n: u64)
    requires
        lo <= hi <= v.len(),
    ensures
        n == directive_capacity(v@.subrange(lo as int, hi as int)),
{
    let ghost raw = v@.subrange(lo as int, hi as int);
    let (dlo, dhi) = trim_range(v, lo, hi);
    let ghost d = trim(raw);
    if !starts_with_capacity_key(v, dlo, dhi) {
        proof {
            if d.len() >= 9 {
                assert(d.take(9) =~= v@.subrange(dlo as int, dlo + 9));
            }
        }
        return 0;
    }
    proof {
        assert(d.take(9) =~= v@.subrange(dlo as int, dlo + 9));
        assert(d.skip(9) =~= v@.subrange(dlo + 9, dhi as int));
    }
    let (vlo, vhi) = trim_range(v, dlo + 9, dhi);
    let end = digit_run_end(v, vlo, vhi);
    proof {
        let val = trim(d.skip(9));
        assert(val.take(digit_run(val) as int) =~= v@.subrange(vlo as int, end as int));
    }
    match parse_unsigned_range(v, vlo, end, 0xffff_ffff_ffff_ffff) {
        Some(n) => n,
        None => 0,
    }
}

/// Extracts the BB capacity (in GiB) a `--bb` string reserves cluster-wide.
///
/// Grammar (semicolon-separated directives, same splitting as the agent's
/// stage-in/out parser): `capacity=NNN` where NNN is gibibytes. Unknown
/// directives (e.g. `stage_in:`/`stage_out:`) are ignored here. Returns 0 when
/// no capacity is requested, so a job with only stage directives never
/// consumes the pool. Several capacity directives add up, saturating.
pub fn parse_capacity_gb(bb: &str) -> (total: u64)
    ensures
        total == capacity_gb(bb@),
{
    let v = chars_of(bb);
    let n = v.len();
    let mut total: u64 = 0;
    let mut pos: usize = 0;
    let ghost mut done: nat = 0;
    proof {
        assert(v@.subrange(0, n as int) =~= v@);
    }
    loop
        invariant_except_break
            capacity_sum(v@) == done + capacity_sum(v@.subrange(pos as int, n as int)),
        invariant
            n == v@.len(),
            v@ == bb@,
            pos <= n,
            total == saturate(done),
        ensures
            capacity_sum(v@) == done,
        decreases n - pos,
    {
        let k = find_first(&v, pos, n, ';');
        let ghost rest = v@.subrange(pos as int, n as int);
        proof {
            assert(rest.take(k - pos) =~= v@.subrange(pos as int, k as int));
        }
        let c = directive_capacity_of(&v, pos, k);
        total = total.saturating_add(c);
        proof {
            done = done + c as nat;
        }
        if k == n {
            break;
        }
        proof {
            assert(rest.skip(k - pos + 1) =~= v@.subrange(k + 1, n as int));
        }
        pos = k + 1;
    }
    total
}

/// Currently-free BB capacity: the configured total minus the capacity held
/// by jobs that already reserved it (`used`), or 0 where more is used.
pub fn free_capacity_gb(total_gb: u64, used_gb: u64) -> (free: u64)
    ensures
        free == if used_gb > total_gb {
            0
        } else {
            total_gb - used_gb
        },
{
    total_gb.saturating_sub(used_gb)
}

/// The directives of `a;b` are those of `a` followed by those of `b`.
proof fn lemma_capacity_sum_join(a: Seq<char>, b: Seq<char>)
    ensures
        capacity_sum(a + seq![';'] + b) == capacity_sum(a) + capacity_sum(b),
    decreases a.len(),
{
    let s = a + seq![';'] + b;
    lemma_first_index_of_join(a, ';', b);
    lemma_first_index_of(a, ';');
    let k = first_index_of(a, ';');
    assert(s.take(k) =~= a.take(k));
    if k < a.len() {
        assert(s.skip(k + 1) =~= a.skip(k + 1) + seq![';'] + b);
        lemma_capacity_sum_join(a.skip(k + 1), b);
    } else {
        assert(s.skip(k + 1) =~= b);
    }
}

/// Joining two `--bb` strings with `;` reserves the (saturating) sum of what
/// each reserves: capacity directives add up.
pub proof fn lemma_capacity_of_joined_directives(a: Seq<char>, b: Seq<char>)
    ensures
        capacity_gb(a + seq![';'] + b) == capacity_gb(a).saturating_add(capacity_gb(b)),
{
    lemma_capacity_sum_join(a, b);
}

/// The `;`-separated directives of `bb`, in order.
pub open spec fn directives(bb: Seq<char>) -> Seq<Seq<char>>
    decreases bb.len(),
{
    let k = first_index_of(bb, ';');
    seq![bb.take(k)] + if k < bb.len() {
        proof {
            lemma_first_index_of(bb, ';');
        }
        directives(bb.skip(k + 1))
    } else {
        Seq::empty()
    }
}

/// A (trimmed) directive that starts with `capacity=`.
pub open spec fn is_capacity_directive(d: Seq<char>) -> bool {
    d.len() >= 9 && d.take(9) == capacity_key()
}

/// A `--bb` string none of whose trimmed directives starts with `capacity=`
/// reserves nothing, so a job with only stage directives never consumes the
/// pool.
pub proof fn lemma_no_capacity_requested(bb: Seq<char>)
    requires
        forall|i: int|
            0 <= i < directives(bb).len() ==> !is_capacity_directive(trim(#[trigger] directives(bb)[i])),
    ensures
        capacity_gb(bb) == 0,
    decreases bb.len(),
{
    lemma_first_index_of(bb, ';');
    let k = first_index_of(bb, ';');
    assert(directives(bb)[0] == bb.take(k));
    if k < bb.len() {
        let rest = bb.skip(k + 1);
        assert forall|i: int|
            0 <= i < directives(rest).len() implies !is_capacity_directive(
            trim(#[trigger] directives(rest)[i]),
        ) by {
            assert(directives(bb)[i + 1] == directives(rest)[i]);
        }
        lemma_no_capacity_requested(rest);
    }
}

/// A `--bb` string made of one `capacity=` directive whose value starts with
/// the decimal digits of `n` (followed by a unit, or by nothing) reserves
/// exactly `n` GiB.
pub proof fn lemma_capacity_directive_value(n: nat, unit: Seq<char>)
    requires
        n <= u64::MAX,
        unit.len() > 0 ==> !is_digit(unit[0]),
        forall|i: int|
            0 <= i < unit.len() ==> #[trigger] unit[i] != ';' && !is_white_space(unit[i]),
    ensures
        capacity_gb(capacity_key() + decimal_digits(n) + unit) == n,
{
    let dd = decimal_digits(n);
    lemma_decimal_digits(n);
    lemma_parse_decimal_digits(n, u64::MAX as nat);
    let val = dd + unit;
    let raw = capacity_key() + val;
    assert(raw =~= capacity_key() + dd + unit);
    assert forall|i: int| 0 <= i < val.len() implies val[i] != ';' && !is_white_space(
        #[trigger] val[i],
    ) by {
        if i < dd.len() {
            assert(is_digit(dd[i]));
        } else {
            assert(val[i] == unit[i - dd.len()]);
        }
    }
    assert forall|i: int| 0 <= i < raw.len() implies #[trigger] raw[i] != ';' by {
        if i >= 9 {
            assert(raw[i] == val[i - 9]);
        }
    }
    lemma_first_index_is(raw, ';', raw.len() as int);
    assert(raw.take(raw.len() as int) =~= raw);
    // `raw` and `val` have no white space at either end.
    assert(raw[0] == 'c');
    assert(raw.last() == val.last());
    assert(trim_start(raw) == raw);
    assert(trim_end(raw) == raw);
    assert(trim(raw) == raw);
    assert(raw.take(9) =~= capacity_key());
    assert(raw.skip(9) =~= val);
    assert(trim_start(val) == val);
    assert(trim_end(val) == val);
    assert(trim(val) == val);
    assert forall|j: int| 0 <= j < dd.len() implies is_digit(#[trigger] val[j]) by {
        assert(val[j] == dd[j]);
    }
    if dd.len() < val.len() {
        assert(val[dd.len() as int] == unit[0]);
    }
    lemma_digit_run_is(val, dd.len() as int);
    assert(val.take(dd.len() as int) =~= dd);
    assert(directive_capacity(raw) == n);
    assert(capacity_sum(raw) == n);
}

} // verus!
