//! Names of the performance log files: the name a log gets from its
//! timestamp, which files of the log directory are logs, and which logs go
//! when there are more than the configured number.

use vstd::prelude::*;
use vstd::string::{StrSliceExecFns, StringExecFns};
use vstd::seq_lib::{to_multiset_build, to_multiset_insert};

use crate::text::str_eq;

verus! {

/// `a` sorts strictly before `b`: compared character by character, by code
/// point, a proper prefix first. This is the order of `String`'s `Ord`,
/// since UTF-8 keeps the order of code points.
pub open spec fn name_lt(a: Seq<char>, b: Seq<char>) -> bool
    decreases a.len(),
{
    if a.len() == 0 {
        b.len() > 0
    } else if b.len() == 0 {
        false
    } else if a[0] != b[0] {
        (a[0] as int) < (b[0] as int)
    } else {
        name_lt(a.drop_first(), b.drop_first())
    }
}

/// `a` sorts before `b` or equals it.
pub open spec fn name_le(a: Seq<char>, b: Seq<char>) -> bool {
    a == b || name_lt(a, b)
}

/// No name sorts before itself.
pub proof fn lemma_name_lt_irreflexive(a: Seq<char>)
    ensures
        !name_lt(a, a),
    decreases a.len(),
{
    if a.len() > 0 {
        lemma_name_lt_irreflexive(a.drop_first());
    }
}

/// Of two different names, one sorts before the other.
pub proof fn lemma_name_lt_total(a: Seq<char>, b: Seq<char>)
    requires
        a != b,
    ensures
        name_lt(a, b) || name_lt(b, a),
    decreases a.len(),
{
    if a.len() > 0 && b.len() > 0 && a[0] == b[0] {
        assert(a =~= seq![a[0]] + a.drop_first());
        assert(b =~= seq![b[0]] + b.drop_first());
        lemma_name_lt_total(a.drop_first(), b.drop_first());
    } else if a.len() == 0 && b.len() == 0 {
        assert(a =~= b);
    } else if a.len() > 0 && b.len() > 0 {
        assert((a[0] as int) != (b[0] as int));
    }
}

/// The order is transitive.
pub proof fn lemma_name_lt_transitive(a: Seq<char>, b: Seq<char>, c: Seq<char>)
    requires
        name_lt(a, b),
        name_lt(b, c),
    ensures
        name_lt(a, c),
    decreases a.len(),
{
    if a.len() > 0 && b.len() > 0 && c.len() > 0 && a[0] == b[0] && b[0] == c[0] {
        lemma_name_lt_transitive(a.drop_first(), b.drop_first(), c.drop_first());
    }
}

/// After `i` equal characters, the names compare as their rests do.
proof fn lemma_name_lt_skip(a: Seq<char>, b: Seq<char>, i: int)
    requires
        0 <= i <= a.len(),
        i <= b.len(),
        forall|k: int| 0 <= k < i ==> a[k] == b[k],
    ensures
        name_lt(a, b) == name_lt(a.skip(i), b.skip(i)),
    decreases i,
{
    if i > 0 {
        lemma_name_lt_skip(a, b, i - 1);
        let a1 = a.skip(i - 1);
        let b1 = b.skip(i - 1);
        assert(a1[0] == b1[0]);
        assert(a1.drop_first() =~= a.skip(i));
        assert(b1.drop_first() =~= b.skip(i));
    } else {
        assert(a.skip(0) =~= a);
        assert(b.skip(0) =~= b);
    }
}

/// Whether `a` sorts strictly before `b`.
pub fn name_less(a: &str, b: &str) -> (r: bool)
    ensures
        r == name_lt(a@, b@),
{
    let n = a.unicode_len();
    let m = b.unicode_len();
    let mut i: usize = 0;
    while i < n && i < m && a.get_char(i) == b.get_char(i)
        invariant
            n == a@.len(),
            m == b@.len(),
            i <= n,
            i <= m,
            forall|k: int| 0 <= k < i ==> a@[k] == b@[k],
        decreases n - i,
    {
        i = i + 1;
    }
    proof {
        lemma_name_lt_skip(a@, b@, i as int);
    }
    if i == n {
        i < m
    } else if i == m {
        false
    } else {
        let ca = a.get_char(i);
        let cb = b.get_char(i);
        (ca as u32) < (cb as u32)
    }
}

/// Names in ascending order.
pub open spec fn names_sorted(s: Seq<String>) -> bool {
    forall|i: int, j: int| 0 <= i < j < s.len() ==> name_le((#[trigger] s[i])@, (#[trigger] s[j])@)
}

/// Inserting `x` after the names not above it and before those above it
/// keeps a sorted sequence sorted.
proof fn lemma_insert_sorted(s: Seq<String>, pos: int, x: String)
    requires
        names_sorted(s),
        0 <= pos <= s.len(),
        forall|k: int| 0 <= k < pos ==> name_le((#[trigger] s[k])@, x@),
        forall|k: int| pos <= k < s.len() ==> name_lt(x@, (#[trigger] s[k])@),
    ensures
        names_sorted(s.insert(pos, x)),
{
    let t = s.insert(pos, x);
    assert forall|i: int, j: int| 0 <= i < j < t.len() implies name_le((#[trigger] t[i])@, (#[trigger] t[j])@) by {
        if j < pos {
            assert(t[i] == s[i] && t[j] == s[j]);
        } else if j == pos {
            assert(t[i] == s[i]);
        } else if i < pos {
            assert(t[i] == s[i] && t[j] == s[j - 1]);
        } else if i == pos {
            assert(t[j] == s[j - 1]);
        } else {
            assert(t[i] == s[i - 1] && t[j] == s[j - 1]);
        }
    }
}

/// `names` in ascending order; equal names keep their order.
pub fn sort_names(names: &Vec<String>) -> (r: Vec<String>)
    ensures
        names_sorted(r@),
        r@.to_multiset() == names@.to_multiset(),
{
    let mut r: Vec<String> = Vec::new();
    let mut i: usize = 0;
    assert(names@.take(0) =~= r@);
    while i < names.len()
        invariant
            i <= names.len(),
            names_sorted(r@),
            r@.to_multiset() == names@.take(i as int).to_multiset(),
        decreases names.len() - i,
    {
        let x = names[i].clone();
        let mut j: usize = 0;
        while j < r.len() && !name_less(x.as_str(), r[j].as_str())
            invariant
                j <= r.len(),
                forall|k: int| 0 <= k < j ==> !name_lt(x@, (#[trigger] r@[k])@),
            decreases r.len() - j,
        {
            j = j + 1;
        }
        proof {
            assert forall|k: int| 0 <= k < j implies name_le((#[trigger] r@[k])@, x@) by {
                if r@[k]@ != x@ {
                    lemma_name_lt_total(r@[k]@, x@);
                }
            }
            assert forall|k: int| j <= k < r.len() implies name_lt(x@, (#[trigger] r@[k])@) by {
                if k > j {
                    assert(name_le(r@[j as int]@, r@[k]@));
                    if r@[j as int]@ != r@[k]@ {
                        lemma_name_lt_transitive(x@, r@[j as int]@, r@[k]@);
                    }
                }
            }
            lemma_insert_sorted(r@, j as int, x);
            to_multiset_insert(r@, j as int, x);
            assert(names@.take(i + 1) =~= names@.take(i as int).push(x));
            to_multiset_build(names@.take(i as int), x);
        }
        r.insert(j, x);
        i = i + 1;
    }
    assert(names@.take(names.len() as int) =~= names@);
    r
}

/// The file name of a log: `perf_` and `.json` around its name stem.
pub open spec fn perf_log_name(name: Seq<char>) -> bool {
    &&& name.len() >= 5
    &&& name.take(5) =~= seq!['p', 'e', 'r', 'f', '_']
    &&& name.skip(name.len() - 5) =~= seq!['.', 'j', 's', 'o', 'n']
}

/// The performance logs among `names`, in their order.
pub open spec fn perf_logs(names: Seq<String>) -> Seq<String>
    decreases names.len(),
{
    if names.len() == 0 {
        Seq::empty()
    } else {
        let rest = perf_logs(names.drop_last());
        if perf_log_name(names.last()@) { rest.push(names.last()) } else { rest }
    }
}

/// Whether a file of the log directory is a performance log.
pub fn is_perf_log_name(name: &str) -> (r: bool)
    ensures
        r == perf_log_name(name@),
{
    let n = name.unicode_len();
    if n < 5 {
        return false;
    }
    let head = name.substring_char(0, 5);
    let tail = name.substring_char(n - 5, n);
    proof {
        reveal_strlit("perf_");
        reveal_strlit(".json");
        assert(name@.take(5) =~= head@);
        assert(name@.skip(n - 5) =~= tail@);
        assert("perf_"@ =~= seq!['p', 'e', 'r', 'f', '_']);
        assert(".json"@ =~= seq!['.', 'j', 's', 'o', 'n']);
    }
    str_eq(head, "perf_") && str_eq(tail, ".json")
}

/// `t` without the characters `:`, `-` and space.
pub open spec fn without_separators(t: Seq<char>) -> Seq<char>
    decreases t.len(),
{
    if t.len() == 0 {
        t
    } else {
        let rest = without_separators(t.drop_last());
        let c = t.last();
        if c == ':' || c == '-' || c == ' ' { rest } else { rest.push(c) }
    }
}

/// The file name of the log taken at `timestamp`: `perf_`, the timestamp
/// without `:`, `-` and spaces, and `.json`.
pub fn perf_log_file_name(timestamp: &str) -> (r: String)
    ensures
        r@ == seq!['p', 'e', 'r', 'f', '_'] + without_separators(timestamp@) + seq!['.', 'j', 's', 'o', 'n'],
{
    let mut r = String::from_str("perf_");
    proof {
        reveal_strlit("perf_");
        assert(timestamp@.take(0) =~= Seq::<char>::empty());
    }
    let n = timestamp.unicode_len();
    let mut i: usize = 0;
    while i < n
        invariant
            n == timestamp@.len(),
            i <= n,
            r@ == seq!['p', 'e', 'r', 'f', '_'] + without_separators(timestamp@.take(i as int)),
        decreases n - i,
    {
        let c = timestamp.get_char(i);
        proof {
            assert(timestamp@.take(i + 1).drop_last() =~= timestamp@.take(i as int));
        }
        if !(c == ':' || c == '-' || c == ' ') {
            let one = timestamp.substring_char(i, i + 1);
            proof {
                assert(one@ =~= seq![c]);
            }
            r.append(one);
        }
        i = i + 1;
    }
    r.append(".json");
    proof {
        reveal_strlit(".json");
        assert(timestamp@.take(n as int) =~= timestamp@);
    }
    r
}

/// The name a log is saved under is recognised as a log.
pub proof fn lemma_file_name_is_log(timestamp: Seq<char>)
    ensures
        perf_log_name(seq!['p', 'e', 'r', 'f', '_'] + without_separators(timestamp) + seq!['.', 'j', 's', 'o', 'n']),
{
    let name = seq!['p', 'e', 'r', 'f', '_'] + without_separators(timestamp) + seq!['.', 'j', 's', 'o', 'n'];
    assert(name.take(5) =~= seq!['p', 'e', 'r', 'f', '_']);
    assert(name.skip(name.len() - 5) =~= seq!['.', 'j', 's', 'o', 'n']);
}

/// The logs to delete so that at most `max_files` remain, oldest first.
/// Log names carry their timestamp, so the oldest sort first; with
/// `max_files` zero, or no more logs than that, none is deleted.
pub fn logs_to_remove(names: &Vec<String>, max_files: usize) -> (r: Vec<String>)
    ensures
        max_files == 0 || perf_logs(names@).len() <= max_files ==> r@.len() == 0,
        max_files > 0 && perf_logs(names@).len() > max_files ==> exists|sorted: Seq<String>|
            names_sorted(sorted) && sorted.to_multiset() == perf_logs(names@).to_multiset()
                && r@ == #[trigger] sorted.take(perf_logs(names@).len() - max_files),
{
    if max_files == 0 {
        return Vec::new();
    }
    let mut logs: Vec<String> = Vec::new();
    let mut i: usize = 0;
    assert(names@.take(0) =~= Seq::<String>::empty());
    while i < names.len()
        invariant
            i <= names.len(),
            logs@ == perf_logs(names@.take(i as int)),
        decreases names.len() - i,
    {
        proof {
            assert(names@.take(i + 1).drop_last() =~= names@.take(i as int));
        }
        if is_perf_log_name(names[i].as_str()) {
            logs.push(names[i].clone());
        }
        i = i + 1;
    }
    assert(names@.take(names.len() as int) =~= names@);
    if logs.len() <= max_files {
        return Vec::new();
    }
    let mut sorted = sort_names(&logs);
    proof {
        vstd::seq_lib::to_multiset_len(sorted@);
        vstd::seq_lib::to_multiset_len(logs@);
    }
    let count = logs.len() - max_files;
    let ghost whole = sorted@;
    sorted.truncate(count);
    proof {
        assert(sorted@ == whole.take(count as int));
    }
    sorted
}

} // verus!
