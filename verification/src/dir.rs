//! Directory-level logic: log file names, their numbers, and the guard that
//! refuses to open an engine on a directory owned by another engine.
//!
//! A log file is named `<N>.log` where `N` is the longest leading run of
//! ASCII decimal digits, read as an unsigned 64-bit integer. The process
//! around the library enumerates the directory and hands the entries here as
//! plain values.

use vstd::prelude::*;
use vstd::string::StrSliceExecFns;
use crate::error::Error;

verus! {

/// One directory entry, as the surrounding process reports it.
#[derive(Debug)]
pub struct DirEntry {
    pub name: String,
    pub is_dir: bool,
}

pub open spec fn is_ascii_digit_char(c: char) -> bool {
    48 <= c as u32 <= 57
}

pub open spec fn digit_val(c: char) -> nat {
    (c as u32 - 48) as nat
}

/// Length of the longest leading run of ASCII decimal digits.
pub open spec fn digits_prefix_len(s: Seq<char>) -> nat
    decreases s.len(),
{
    if s.len() == 0 || !is_ascii_digit_char(s[0]) {
        0
    } else {
        1 + digits_prefix_len(s.drop_first())
    }
}

/// Numeric value of an all-digit character sequence, most significant first.
pub open spec fn digits_value(s: Seq<char>) -> nat
    decreases s.len(),
{
    if s.len() == 0 {
        0
    } else {
        digits_value(s.drop_last()) * 10 + digit_val(s.last())
    }
}

/// What parsing a file name yields: the value of its digit prefix, or
/// nothing when the prefix is empty or overflows 64 bits.
pub open spec fn spec_parse_file_num(s: Seq<char>) -> Option<u64> {
    let n = digits_prefix_len(s) as int;
    if n == 0 {
        None
    } else if digits_value(s.take(n)) > u64::MAX {
        None
    } else {
        Some(digits_value(s.take(n)) as u64)
    }
}

pub proof fn lemma_digits_prefix_len_unique(s: Seq<char>, n: int)
    requires
        0 <= n <= s.len(),
        forall|i: int| 0 <= i < n ==> is_ascii_digit_char(#[trigger] s[i]),
        n < s.len() ==> !is_ascii_digit_char(s[n]),
    ensures
        digits_prefix_len(s) == n,
    decreases s.len(),
{
    if n == 0 {
    } else {
        let d = s.drop_first();
        assert(is_ascii_digit_char(s[0]));
        assert forall|i: int| 0 <= i < n - 1 implies is_ascii_digit_char(#[trigger] d[i]) by {
            assert(d[i] == s[i + 1]);
        }
        if n - 1 < d.len() {
            assert(d[n - 1] == s[n]);
        }
        lemma_digits_prefix_len_unique(d, n - 1);
    }
}

pub proof fn lemma_digits_value_monotone(s: Seq<char>, j: int, n: int)
    requires
        0 <= j <= n <= s.len(),
    ensures
        digits_value(s.take(j)) <= digits_value(s.take(n)),
    decreases n - j,
{
    if j < n {
        lemma_digits_value_monotone(s, j, n - 1);
        let t = s.take(n);
        assert(t.drop_last() =~= s.take(n - 1));
        assert(digits_value(s.take(n)) == digits_value(s.take(n - 1)) * 10 + digit_val(t.last()));
    }
}

/// Parse the leading decimal digits of a log file name as its number.
/// Rejects an empty digit prefix and values that do not fit in 64 bits.
pub fn parse_file_num(file_name: &str) -> (r: Option<u64>)
    ensures
        r == spec_parse_file_num(file_name@),
{
    let s_len: usize = file_name.unicode_len();
    let mut n: usize = 0;
    let mut stopped = false;
    while n < s_len && !stopped
        invariant
            n <= s_len,
            s_len == file_name@.len(),
            forall|i: int| 0 <= i < n ==> is_ascii_digit_char(#[trigger] file_name@[i]),
            stopped ==> n < s_len && !is_ascii_digit_char(file_name@[n as int]),
        decreases s_len - n + (if stopped { 0int } else { 1int }),
    {
        let c = file_name.get_char(n);
        if (c as u32) < 48 || (c as u32) > 57 {
            stopped = true;
        } else {
            n = n + 1;
        }
    }
    proof {
        lemma_digits_prefix_len_unique(file_name@, n as int);
    }
    if n == 0 {
        return None;
    }
    let mut acc: u64 = 0;
    let mut j: usize = 0;
    while j < n
        invariant
            0 <= j <= n <= s_len,
            s_len == file_name@.len(),
            forall|i: int| 0 <= i < n ==> is_ascii_digit_char(#[trigger] file_name@[i]),
            acc == digits_value(file_name@.take(j as int)),
            digits_prefix_len(file_name@) == n,
        decreases n - j,
    {
        let c = file_name.get_char(j);
        let d: u64 = (c as u32 - 48) as u64;
        proof {
            assert(is_ascii_digit_char(file_name@[j as int]));
            assert(file_name@.take(j + 1).drop_last() =~= file_name@.take(j as int));
            assert(file_name@.take(j + 1).last() == file_name@[j as int]);
        }
        let next = match acc.checked_mul(10) {
            Some(m) => m.checked_add(d),
            None => None,
        };
        match next {
            Some(v) => {
                acc = v;
            },
            None => {
                proof {
                    assert(digits_value(file_name@.take(j + 1)) > u64::MAX);
                    lemma_digits_value_monotone(file_name@, j + 1, n as int);
                }
                return None;
            },
        }
        j = j + 1;
    }
    Some(acc)
}

/// Does the name end in `.log`?
pub open spec fn ends_with_log(s: Seq<char>) -> bool {
    s.len() >= 4 && s[s.len() - 4] == '.' && s[s.len() - 3] == 'l' && s[s.len() - 2] == 'o'
        && s[s.len() - 1] == 'g'
}

pub fn name_ends_with_log(name: &str) -> (r: bool)
    ensures
        r == ends_with_log(name@),
{
    let l: usize = name.unicode_len();
    if l < 4 {
        return false;
    }
    name.get_char(l - 4) == '.' && name.get_char(l - 3) == 'l' && name.get_char(l - 2) == 'o'
        && name.get_char(l - 1) == 'g'
}

/// The log file number carried by a directory entry, if it is one of the
/// log engine's files: a non-directory whose name is `<digits>…` ending in
/// `.log`.
pub open spec fn spec_entry_log_num(name: Seq<char>, is_dir: bool) -> Option<u64> {
    if !is_dir && ends_with_log(name) {
        spec_parse_file_num(name)
    } else {
        None
    }
}

pub fn entry_log_num(e: &DirEntry) -> (r: Option<u64>)
    ensures
        r == spec_entry_log_num(e.name@, e.is_dir),
{
    if e.is_dir {
        return None;
    }
    if !name_ends_with_log(e.name.as_str()) {
        return None;
    }
    parse_file_num(e.name.as_str())
}

pub open spec fn sorted_strict(s: Seq<u64>) -> bool {
    forall|i: int, j: int| 0 <= i < j < s.len() ==> s[i] < s[j]
}

/// Insert `x` into a strictly sorted vector, keeping it sorted and
/// duplicate-free.
fn insert_sorted(v: &mut Vec<u64>, x: u64)
    requires
        sorted_strict(old(v)@),
    ensures
        sorted_strict(final(v)@),
        forall|y: u64| final(v)@.contains(y) <==> (old(v)@.contains(y) || y == x),
{
    let mut i: usize = 0;
    while i < v.len() && v[i] < x
        invariant
            i <= v@.len(),
            sorted_strict(v@),
            v@ == old(v)@,
            forall|k: int| 0 <= k < i ==> v@[k] < x,
        decreases v@.len() - i,
    {
        i = i + 1;
    }
    if i < v.len() && v[i] == x {
        proof {
            assert(v@.contains(x)) by {
                assert(v@[i as int] == x);
            }
        }
        return;
    }
    v.insert(i, x);
    proof {
        let nv = v@;
        let ov = old(v)@;
        assert forall|a: int, b: int| 0 <= a < b < nv.len() implies nv[a] < nv[b] by {
            if b < i {
            } else if a < i && b == i {
            } else if a < i && b > i {
                assert(nv[b] == ov[b - 1]);
            } else if a == i {
                assert(nv[b] == ov[b - 1]);
                assert(ov[i as int] > x || i as int == ov.len());
                if i as int <= b - 1 {
                    assert(ov[i as int] <= ov[b - 1] || i as int == b - 1);
                }
            } else {
                assert(nv[a] == ov[a - 1]);
                assert(nv[b] == ov[b - 1]);
            }
        }
        assert forall|y: u64| nv.contains(y) <==> (ov.contains(y) || y == x) by {
            if nv.contains(y) {
                let k = choose|k: int| 0 <= k < nv.len() && nv[k] == y;
                if k < i {
                    assert(ov[k] == y);
                    assert(ov.contains(y));
                } else if k == i {
                } else {
                    assert(ov[k - 1] == y);
                    assert(ov.contains(y));
                }
            }
            if ov.contains(y) {
                let k = choose|k: int| 0 <= k < ov.len() && ov[k] == y;
                if k < i {
                    assert(nv[k] == y);
                } else {
                    assert(nv[k + 1] == y);
                }
                assert(nv.contains(y));
            }
            if y == x {
                assert(nv[i as int] == y);
                assert(nv.contains(y));
            }
        }
    }
}

/// The numbers of all log files among the entries, strictly ascending and
/// without duplicates.
pub fn sorted_file_nums(entries: &Vec<DirEntry>) -> (r: Vec<u64>)
    ensures
        sorted_strict(r@),
        forall|v: u64|
            r@.contains(v) <==> exists|k: int|
                0 <= k < entries@.len() && spec_entry_log_num(
                    #[trigger] entries@[k].name@,
                    entries@[k].is_dir,
                ) == Some(v),
{
    let mut out: Vec<u64> = Vec::new();
    let mut k: usize = 0;
    while k < entries.len()
        invariant
            k <= entries@.len(),
            sorted_strict(out@),
            forall|v: u64|
                out@.contains(v) <==> exists|j: int|
                    0 <= j < k && spec_entry_log_num(
                        #[trigger] entries@[j].name@,
                        entries@[j].is_dir,
                    ) == Some(v),
        decreases entries@.len() - k,
    {
        match entry_log_num(&entries[k]) {
            Some(v) => {
                insert_sorted(&mut out, v);
            },
            None => {},
        }
        k = k + 1;
    }
    out
}

/// Does this entry mark the directory as owned by the tree-backed engine?
/// The tree backend keeps its data in files named `db` and `conf`.
pub open spec fn spec_is_tree_marker(name: Seq<char>, is_dir: bool) -> bool {
    !is_dir && (name == seq!['d', 'b'] || name == seq!['c', 'o', 'n', 'f'])
}

pub fn is_tree_marker(e: &DirEntry) -> (r: bool)
    ensures
        r == spec_is_tree_marker(e.name@, e.is_dir),
{
    if e.is_dir {
        return false;
    }
    let s = e.name.as_str();
    let l: usize = s.unicode_len();
    if l == 2 {
        let r = s.get_char(0) == 'd' && s.get_char(1) == 'b';
        proof {
            if r {
                assert(e.name@ =~= seq!['d', 'b']);
            } else {
                assert(e.name@ != seq!['d', 'b']);
                assert(e.name@ != seq!['c', 'o', 'n', 'f']);
            }
        }
        r
    } else if l == 4 {
        let r = s.get_char(0) == 'c' && s.get_char(1) == 'o' && s.get_char(2) == 'n'
            && s.get_char(3) == 'f';
        proof {
            if r {
                assert(e.name@ =~= seq!['c', 'o', 'n', 'f']);
            } else {
                assert(e.name@ != seq!['c', 'o', 'n', 'f']);
                assert(e.name@ != seq!['d', 'b']);
            }
        }
        r
    } else {
        proof {
            assert(e.name@ != seq!['d', 'b']);
            assert(e.name@ != seq!['c', 'o', 'n', 'f']);
        }
        false
    }
}

/// Whether the directory may be opened by the log-structured engine: it must
/// hold no tree-backend marker.
pub fn check_kvs_dir(entries: &Vec<DirEntry>) -> (r: Result<(), Error>)
    ensures
        r is Ok <==> !(exists|k: int|
            0 <= k < entries@.len() && spec_is_tree_marker(
                #[trigger] entries@[k].name@,
                entries@[k].is_dir,
            )),
        r matches Err(e) ==> e is EngineMismatch,
{
    let mut k: usize = 0;
    while k < entries.len()
        invariant
            k <= entries@.len(),
            forall|j: int|
                0 <= j < k ==> !spec_is_tree_marker(
                    #[trigger] entries@[j].name@,
                    entries@[j].is_dir,
                ),
        decreases entries@.len() - k,
    {
        if is_tree_marker(&entries[k]) {
            return Err(Error::EngineMismatch);
        }
        k = k + 1;
    }
    Ok(())
}

/// Whether the directory may be opened by the tree-backed engine: it must
/// hold no `<digits>.log` file of the log-structured engine.
pub fn check_tree_dir(entries: &Vec<DirEntry>) -> (r: Result<(), Error>)
    ensures
        r is Ok <==> !(exists|k: int|
            0 <= k < entries@.len() && spec_entry_log_num(
                #[trigger] entries@[k].name@,
                entries@[k].is_dir,
            ) is Some),
        r matches Err(e) ==> e is EngineMismatch,
{
    let mut k: usize = 0;
    while k < entries.len()
        invariant
            k <= entries@.len(),
            forall|j: int|
                0 <= j < k ==> !(spec_entry_log_num(
                    #[trigger] entries@[j].name@,
                    entries@[j].is_dir,
                ) is Some),
        decreases entries@.len() - k,
    {
        if entry_log_num(&entries[k]).is_some() {
            return Err(Error::EngineMismatch);
        }
        k = k + 1;
    }
    Ok(())
}

} // verus!
