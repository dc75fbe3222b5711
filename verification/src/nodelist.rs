//! Where a job's node list comes from: given on the command line, or read from
//! a node file.
//!
//! `resolve` decides which; where it names a file, the caller reads it and hands
//! the outcome to `read_result`, which turns the file's contents into a
//! comma-separated node list.
use vstd::prelude::*;

use crate::text::{
    chars_of, find_first, first_index_of, is_white_space, is_white_space_char,
    lemma_first_index_of, push_char, push_chars,
};

verus! {

/// A character that separates node names in a node file: a comma or Unicode
/// white space.
pub open spec fn is_node_separator(c: char) -> bool {
    c == ',' || is_white_space(c)
}

/// The index of the first separator in `s`, or `s.len()` where there is none.
pub open spec fn first_separator(s: Seq<char>) -> int
    decreases s.len(),
{
    if s.len() == 0 {
        0
    } else if is_node_separator(s[0]) {
        0
    } else {
        1 + first_separator(s.drop_first())
    }
}

pub proof fn lemma_first_separator(s: Seq<char>)
    ensures
        0 <= first_separator(s) <= s.len(),
        first_separator(s) < s.len() ==> is_node_separator(s[first_separator(s)]),
        forall|j: int| 0 <= j < first_separator(s) ==> !is_node_separator(#[trigger] s[j]),
    decreases s.len(),
{
    if s.len() > 0 && !is_node_separator(s[0]) {
        lemma_first_separator(s.drop_first());
        assert forall|j: int| 0 <= j < first_separator(s) implies !is_node_separator(
            #[trigger] s[j],
        ) by {
            if j > 0 {
                assert(s[j] == s.drop_first()[j - 1]);
            }
        }
    }
}

pub proof fn lemma_first_separator_is(s: Seq<char>, k: int)
    requires
        0 <= k <= s.len(),
        k < s.len() ==> is_node_separator(s[k]),
        forall|j: int| 0 <= j < k ==> !is_node_separator(#[trigger] s[j]),
    ensures
        first_separator(s) == k,
{
    lemma_first_separator(s);
    let f = first_separator(s);
    if f < k {
        assert(!is_node_separator(s[f]));
    } else if k < f {
        assert(!is_node_separator(s[k]));
    }
}

/// The node names in a node file's contents: the non-empty pieces between
/// separators, in order.
pub open spec fn node_names(s: Seq<char>) -> Seq<Seq<char>>
    decreases s.len(),
{
    let k = first_separator(s);
    let rest = if k < s.len() {
        proof {
            lemma_first_separator(s);
        }
        node_names(s.skip(k + 1))
    } else {
        Seq::empty()
    };
    if k == 0 {
        rest
    } else {
        seq![s.take(k)] + rest
    }
}

/// `names` joined by commas.
pub open spec fn join_names(names: Seq<Seq<char>>) -> Seq<char>
    decreases names.len(),
{
    if names.len() == 0 {
        Seq::empty()
    } else if names.len() == 1 {
        names[0]
    } else {
        join_names(names.drop_last()) + seq![','] + names.last()
    }
}

/// The node list that a node file with these contents holds.
pub open spec fn node_list(contents: Seq<char>) -> Seq<char> {
    join_names(node_names(contents))
}

/// Where the node list comes from.
#[derive(Debug)]
pub enum NodeListSource {
    /// The node list as given on the command line (or none).
    Given(Option<String>),
    /// The node list is the contents of this file, read by the caller and
    /// handed to `read_result`.
    File(String),
}

/// Why no node list could be had.
#[derive(Debug)]
pub enum NodeListError {
    /// The node file at `path` could not be read.
    ReadFailed { path: String },
}

impl NodeListError {
    /// The error's message.
    pub fn message(&self) -> (m: String)
        ensures
            match self {
                NodeListError::ReadFailed { path } => m@ == "failed to read node list file: "@
                    + path@,
            },
    {
        match self {
            NodeListError::ReadFailed { path } => {
                let mut m = String::from_str("failed to read node list file: ");
                m.append(path.as_str());
                m
            },
        }
    }
}

fn contains_slash(value: &String) -> (b: bool)
    ensures
        b == value@.contains('/'),
{
    let v = chars_of(value.as_str());
    let k = find_first(&v, 0, v.len(), '/');
    proof {
        assert(v@.subrange(0, v@.len() as int) =~= v@);
        lemma_first_index_of(v@, '/');
        if k < v.len() {
            assert(v@[k as int] == '/');
        }
    }
    k < v.len()
}

/// Decides where the node list comes from: an explicit node file always wins;
/// a node list that contains `/` names a file; any other node list is used as
/// given.
pub fn resolve(nodelist: Option<String>, nodefile: Option<String>) -> (r: NodeListSource)
    ensures
        match nodefile {
            Some(path) => r == NodeListSource::File(path),
            None => match nodelist {
                Some(value) => if value@.contains('/') {
                    r == NodeListSource::File(value)
                } else {
                    r == NodeListSource::Given(Some(value))
                },
                None => r == NodeListSource::Given(None),
            },
        },
{
    if let Some(path) = nodefile {
        return NodeListSource::File(path);
    }
    match nodelist {
        Some(value) => {
            if contains_slash(&value) {
                NodeListSource::File(value)
            } else {
                NodeListSource::Given(Some(value))
            }
        },
        None => NodeListSource::Given(None),
    }
}

/// Whether `c` separates node names.
fn is_node_separator_char(c: char) -> (b: bool)
    ensures
        b == is_node_separator(c),
{
    c == ',' || is_white_space_char(c)
}

/// The node list that a node file with these contents holds: its names,
/// separated in the file by commas or white space, joined by single commas.
pub fn normalize_node_list(contents: &str) -> (r: String)
    ensures
        r@ == node_list(contents@),
{
    let v = chars_of(contents);
    let n = v.len();
    let mut out = String::new();
    let mut any = false;
    let mut start: usize = 0;
    let mut i: usize = 0;
    let ghost mut done: Seq<Seq<char>> = Seq::empty();
    proof {
        assert(v@.subrange(0, n as int) =~= v@);
        assert(done + node_names(v@) =~= node_names(v@));
    }
    while i < n
        invariant
            n == v@.len(),
            v@ == contents@,
            start <= i <= n,
            forall|j: int| start <= j < i ==> !is_node_separator(#[trigger] v@[j]),
            node_names(v@) == done + node_names(v@.subrange(start as int, n as int)),
            out@ == join_names(done),
            any == (done.len() > 0),
        decreases n - i,
    {
        if is_node_separator_char(v[i]) {
            let ghost rest = v@.subrange(start as int, n as int);
            let ghost tail = node_names(v@.subrange(i + 1, n as int));
            proof {
                assert forall|j: int| 0 <= j < i - start implies !is_node_separator(
                    #[trigger] rest[j],
                ) by {
                    assert(rest[j] == v@[start + j]);
                }
                assert(rest[i - start] == v@[i as int]);
                lemma_first_separator_is(rest, i - start);
                assert(rest.skip(i - start + 1) =~= v@.subrange(i + 1, n as int));
                assert(rest.take(i - start) =~= v@.subrange(start as int, i as int));
            }
            if i > start {
                let ghost token = v@.subrange(start as int, i as int);
                if any {
                    push_char(&mut out, ',');
                }
                push_chars(&mut out, &v, start, i);
                any = true;
                proof {
                    assert(done.push(token).drop_last() =~= done);
                    assert(done + (seq![token] + tail) =~= done.push(token) + tail);
                    done = done.push(token);
                }
            }
            start = i + 1;
        }
        i = i + 1;
    }
    if n > start {
        let ghost token = v@.subrange(start as int, n as int);
        proof {
            assert forall|j: int| 0 <= j < n - start implies !is_node_separator(
                #[trigger] token[j],
            ) by {
                assert(token[j] == v@[start + j]);
            }
            lemma_first_separator_is(token, n - start);
            assert(token.take(n - start) =~= token);
            assert(done.push(token).drop_last() =~= done);
            assert(done + (seq![token] + Seq::<Seq<char>>::empty()) =~= done.push(token));
        }
        if any {
            push_char(&mut out, ',');
        }
        push_chars(&mut out, &v, start, n);
        proof {
            done = done.push(token);
        }
    } else {
        proof {
            assert(done + Seq::<Seq<char>>::empty() =~= done);
        }
    }
    out
}

/// The node list, given the outcome of reading the node file at `path`:
/// `Some` with the file's contents, or `None` where reading failed.
pub fn read_result(path: String, contents: Option<String>) -> (r: Result<String, NodeListError>)
    ensures
        match contents {
            Some(c) => r matches Ok(list) && list@ == node_list(c@),
            None => r == Err::<String, NodeListError>(NodeListError::ReadFailed { path }),
        },
{
    match contents {
        Some(c) => Ok(normalize_node_list(c.as_str())),
        None => Err(NodeListError::ReadFailed { path }),
    }
}

/// A name in a node list: not empty, and without separators.
pub open spec fn is_node_name(n: Seq<char>) -> bool {
    n.len() > 0 && forall|i: int| 0 <= i < n.len() ==> !is_node_separator(#[trigger] n[i])
}

/// The names a node file holds are names.
proof fn lemma_node_names_are_names(s: Seq<char>)
    ensures
        forall|i: int| 0 <= i < node_names(s).len() ==> is_node_name(#[trigger] node_names(s)[i]),
    decreases s.len(),
{
    lemma_first_separator(s);
    let k = first_separator(s);
    let rest = if k < s.len() {
        node_names(s.skip(k + 1))
    } else {
        Seq::<Seq<char>>::empty()
    };
    if k < s.len() {
        lemma_node_names_are_names(s.skip(k + 1));
    }
    if k != 0 {
        let name = s.take(k);
        assert forall|j: int| 0 <= j < name.len() implies !is_node_separator(#[trigger] name[j]) by {
            assert(name[j] == s[j]);
        }
        assert forall|i: int| 0 <= i < node_names(s).len() implies is_node_name(
            #[trigger] node_names(s)[i],
        ) by {
            if i > 0 {
                assert(node_names(s)[i] == rest[i - 1]);
            }
        }
    }
}

/// Joining two or more names puts the first in front.
proof fn lemma_join_names_front(ts: Seq<Seq<char>>)
    requires
        ts.len() >= 2,
    ensures
        join_names(ts) == ts[0] + seq![','] + join_names(ts.drop_first()),
    decreases ts.len(),
{
    let tail = ts.drop_first();
    if ts.len() == 2 {
        assert(ts.drop_last().len() == 1);
        assert(join_names(ts.drop_last()) == ts.drop_last()[0]);
        assert(join_names(tail) == tail[0]);
    } else {
        lemma_join_names_front(ts.drop_last());
        assert(ts.drop_last().drop_first() =~= tail.drop_last());
        assert(ts.drop_last()[0] == ts[0]);
        assert(tail.last() == ts.last());
        assert(join_names(ts) =~= ts[0] + seq![','] + join_names(tail));
    }
}

/// Reading back a joined list of names gives those names.
proof fn lemma_node_names_of_join(ts: Seq<Seq<char>>)
    requires
        forall|i: int| 0 <= i < ts.len() ==> is_node_name(#[trigger] ts[i]),
    ensures
        node_names(join_names(ts)) == ts,
    decreases ts.len(),
{
    if ts.len() == 0 {
        assert(node_names(Seq::<char>::empty()) =~= ts);
    } else {
        let t0 = ts[0];
        assert(is_node_name(t0));
        if ts.len() == 1 {
            lemma_first_separator_is(t0, t0.len() as int);
            assert(t0.take(t0.len() as int) =~= t0);
            assert(node_names(t0) =~= ts);
        } else {
            let tail = ts.drop_first();
            lemma_join_names_front(ts);
            let j2 = join_names(tail);
            let j = t0 + seq![','] + j2;
            assert forall|m: int| 0 <= m < t0.len() implies !is_node_separator(#[trigger] j[m]) by {
                assert(j[m] == t0[m]);
            }
            assert(j[t0.len() as int] == ',');
            lemma_first_separator_is(j, t0.len() as int);
            assert(j.take(t0.len() as int) =~= t0);
            assert(j.skip(t0.len() as int + 1) =~= j2);
            assert forall|i: int| 0 <= i < tail.len() implies is_node_name(#[trigger] tail[i]) by {
                assert(tail[i] == ts[i + 1]);
            }
            lemma_node_names_of_join(tail);
            assert(node_names(j) =~= ts);
        }
    }
}

/// A joined list of names holds no white space, and no empty name: it neither
/// starts nor ends with a comma, and no two commas stand side by side.
proof fn lemma_join_names_shape(ts: Seq<Seq<char>>)
    requires
        forall|i: int| 0 <= i < ts.len() ==> is_node_name(#[trigger] ts[i]),
    ensures
        ts.len() > 0 ==> join_names(ts).len() > 0,
        forall|i: int| 0 <= i < join_names(ts).len() ==> !is_white_space(#[trigger] join_names(ts)[i]),
        join_names(ts).len() > 0 ==> join_names(ts)[0] != ',' && join_names(ts).last() != ',',
        forall|i: int|
            0 <= i < join_names(ts).len() - 1 ==> !(#[trigger] join_names(ts)[i] == ',' && join_names(
                ts,
            )[i + 1] == ','),
    decreases ts.len(),
{
    let j = join_names(ts);
    if ts.len() == 1 {
        let t = ts[0];
        assert(is_node_name(t));
        assert forall|i: int| 0 <= i < j.len() implies !is_white_space(#[trigger] j[i]) && j[i]
            != ',' by {
            assert(!is_node_separator(t[i]));
        }
    } else if ts.len() >= 2 {
        let init = ts.drop_last();
        let t = ts.last();
        assert(is_node_name(ts[ts.len() - 1]));
        assert forall|i: int| 0 <= i < init.len() implies is_node_name(#[trigger] init[i]) by {
            assert(init[i] == ts[i]);
        }
        lemma_join_names_shape(init);
        let ji = join_names(init);
        assert(j == ji + seq![','] + t);
        let n = ji.len();
        assert forall|i: int| n < i < j.len() implies j[i] == t[i - n - 1] && !is_node_separator(
            #[trigger] j[i],
        ) by {
            assert(j[i] == t[i - n - 1]);
            assert(!is_node_separator(t[i - n - 1]));
        }
        assert forall|i: int| 0 <= i < j.len() implies !is_white_space(#[trigger] j[i]) by {
            if i < n {
                assert(j[i] == ji[i]);
            } else if i > n {
                assert(!is_node_separator(j[i]));
            }
        }
        assert(j[0] == ji[0]);
        assert(!is_node_separator(j[j.len() - 1]));
        assert forall|i: int| 0 <= i < j.len() - 1 implies !(#[trigger] j[i] == ',' && j[i + 1]
            == ',') by {
            if i + 1 < n {
                assert(j[i] == ji[i] && j[i + 1] == ji[i + 1]);
            } else if i + 1 == n {
                assert(j[i] == ji.last());
            } else if i == n {
                assert(!is_node_separator(j[i + 1]));
            } else {
                assert(!is_node_separator(j[i]));
            }
        }
    }
}

/// Whether a character belongs to a name: it is no separator.
pub open spec fn in_name() -> spec_fn(char) -> bool {
    |ch: char| !is_node_separator(ch)
}

/// Whether a character of a node list is not a comma.
pub open spec fn not_comma() -> spec_fn(char) -> bool {
    |ch: char| ch != ','
}

/// The characters of a node file that belong to names: all but separators.
pub open spec fn name_chars(contents: Seq<char>) -> Seq<char> {
    contents.filter(in_name())
}

/// The characters of a node list other than its commas.
pub open spec fn list_chars(list: Seq<char>) -> Seq<char> {
    list.filter(not_comma())
}

/// The names one after another, with nothing between them.
pub open spec fn concat_names(names: Seq<Seq<char>>) -> Seq<char>
    decreases names.len(),
{
    if names.len() == 0 {
        Seq::empty()
    } else {
        names[0] + concat_names(names.drop_first())
    }
}

proof fn lemma_filter_keeps_all(s: Seq<char>, pred: spec_fn(char) -> bool)
    requires
        forall|i: int| 0 <= i < s.len() ==> pred(#[trigger] s[i]),
    ensures
        s.filter(pred) == s,
    decreases s.len(),
{
    reveal(Seq::filter);
    if s.len() > 0 {
        let t = s.drop_last();
        assert forall|i: int| 0 <= i < t.len() implies pred(#[trigger] t[i]) by {
            assert(t[i] == s[i]);
        }
        lemma_filter_keeps_all(t, pred);
        assert(pred(s[s.len() - 1]));
        assert(t.push(s.last()) =~= s);
    }
}

proof fn lemma_filter_single(c: char, pred: spec_fn(char) -> bool)
    ensures
        seq![c].filter(pred) == if pred(c) {
            seq![c]
        } else {
            Seq::<char>::empty()
        },
{
    reveal_with_fuel(Seq::filter, 2);
    assert(seq![c].drop_last() =~= Seq::<char>::empty());
    assert(Seq::<char>::empty().push(c) =~= seq![c]);
}

/// The name characters of a node file are its names one after another.
proof fn lemma_name_chars(s: Seq<char>)
    ensures
        name_chars(s) == concat_names(node_names(s)),
    decreases s.len(),
{
    let pred = in_name();
    lemma_first_separator(s);
    let k = first_separator(s);
    let head = s.take(k);
    assert forall|i: int| 0 <= i < head.len() implies pred(#[trigger] head[i]) by {
        assert(head[i] == s[i]);
    }
    lemma_filter_keeps_all(head, pred);
    if k < s.len() {
        let rest = s.skip(k + 1);
        lemma_name_chars(rest);
        assert(s =~= head + seq![s[k]] + rest);
        Seq::filter_distributes_over_add(head + seq![s[k]], rest, pred);
        Seq::filter_distributes_over_add(head, seq![s[k]], pred);
        lemma_filter_single(s[k], pred);
        assert(head + Seq::<char>::empty() =~= head);
        assert(!pred(s[k]));
        assert(seq![s[k]].filter(pred) =~= Seq::<char>::empty());
        assert(s.filter(pred) == head.filter(pred) + seq![s[k]].filter(pred) + rest.filter(pred));
        assert(name_chars(s) =~= head + name_chars(rest));
        if k == 0 {
            assert(head =~= Seq::<char>::empty());
            assert(node_names(s) == node_names(rest));
            assert(Seq::<char>::empty() + name_chars(rest) =~= name_chars(rest));
        } else {
            let names = seq![head] + node_names(rest);
            assert(node_names(s) == names);
            assert(names.drop_first() =~= node_names(rest));
            assert(names[0] == head);
            assert(concat_names(names) == head + concat_names(node_names(rest)));
        }
    } else {
        assert(head =~= s);
        assert(name_chars(s) == s);
        if k == 0 {
            assert(s.len() == 0);
            assert(node_names(s) == Seq::<Seq<char>>::empty());
            assert(concat_names(node_names(s)) == Seq::<char>::empty());
            assert(s =~= Seq::<char>::empty());
        } else {
            let names = seq![head] + Seq::<Seq<char>>::empty();
            assert(node_names(s) == names);
            assert(names.drop_first() =~= Seq::<Seq<char>>::empty());
            assert(concat_names(names.drop_first()) == Seq::<char>::empty());
            assert(names[0] == s);
            assert(s + Seq::<char>::empty() =~= s);
        }
    }
}

/// Dropping the commas of a joined list of names leaves the names one after
/// another.
proof fn lemma_list_chars_of_join(ts: Seq<Seq<char>>)
    requires
        forall|i: int| 0 <= i < ts.len() ==> is_node_name(#[trigger] ts[i]),
    ensures
        list_chars(join_names(ts)) == concat_names(ts),
    decreases ts.len(),
{
    let pred = not_comma();
    if ts.len() == 0 {
        reveal(Seq::filter);
        assert(join_names(ts) == Seq::<char>::empty());
        assert(list_chars(join_names(ts)) =~= Seq::<char>::empty());
    } else {
        let t0 = ts[0];
        assert(is_node_name(t0));
        assert forall|i: int| 0 <= i < t0.len() implies pred(#[trigger] t0[i]) by {
            assert(!is_node_separator(t0[i]));
        }
        lemma_filter_keeps_all(t0, pred);
        let tail = ts.drop_first();
        if ts.len() == 1 {
            assert(tail =~= Seq::<Seq<char>>::empty());
            assert(concat_names(tail) == Seq::<char>::empty());
            assert(join_names(ts) == t0);
            assert(t0 + Seq::<char>::empty() =~= t0);
        } else {
            lemma_join_names_front(ts);
            assert forall|i: int| 0 <= i < tail.len() implies is_node_name(#[trigger] tail[i]) by {
                assert(tail[i] == ts[i + 1]);
            }
            lemma_list_chars_of_join(tail);
            let j2 = join_names(tail);
            Seq::filter_distributes_over_add(t0 + seq![','], j2, pred);
            Seq::filter_distributes_over_add(t0, seq![','], pred);
            lemma_filter_single(',', pred);
            assert(!pred(','));
            assert(seq![','].filter(pred) =~= Seq::<char>::empty());
            assert(t0 + Seq::<char>::empty() =~= t0);
            assert(join_names(ts).filter(pred) == t0.filter(pred) + seq![','].filter(pred)
                + j2.filter(pred));
            assert(list_chars(join_names(ts)) =~= t0 + concat_names(tail));
        }
    }
}

/// A node list is in its final form: reading it back as a node file gives the
/// same list, it holds no white space, and no name in it is empty (it neither
/// starts nor ends with a comma, and no two commas stand side by side).
pub proof fn lemma_node_list_canonical(contents: Seq<char>)
    ensures
        node_list(node_list(contents)) == node_list(contents),
        forall|i: int|
            0 <= i < node_list(contents).len() ==> !is_white_space(#[trigger] node_list(contents)[i]),
        node_list(contents).len() > 0 ==> node_list(contents)[0] != ',' && node_list(contents).last()
            != ',',
        forall|i: int|
            0 <= i < node_list(contents).len() - 1 ==> !(#[trigger] node_list(contents)[i] == ','
                && node_list(contents)[i + 1] == ','),
{
    let names = node_names(contents);
    lemma_node_names_are_names(contents);
    lemma_node_names_of_join(names);
    lemma_join_names_shape(names);
}

/// A node list keeps every name of the file, in order, and nothing else:
/// reading the list back gives exactly the file's names, and without its
/// commas the list is exactly the file's characters other than separators.
pub proof fn lemma_node_list_keeps_names(contents: Seq<char>)
    ensures
        node_names(node_list(contents)) == node_names(contents),
        list_chars(node_list(contents)) == name_chars(contents),
{
    let names = node_names(contents);
    lemma_node_names_are_names(contents);
    lemma_node_names_of_join(names);
    lemma_list_chars_of_join(names);
    lemma_name_chars(contents);
}

} // verus!
