//! Path-string parsing: splitting a path into its final segment (the node
//! name) and extracting the extension after the last `.` of that segment.

use vstd::prelude::*;

verus! {

/// Index of the last occurrence of `c` in `s`, or `-1` if `c` does not occur.
pub open spec fn last_index_of(s: Seq<char>, c: char) -> int
    decreases s.len(),
{
    if s.len() == 0 {
        -1
    } else if s[s.len() - 1] == c {
        s.len() - 1
    } else {
        last_index_of(s.subrange(0, s.len() - 1), c)
    }
}

/// `last_index_of` indeed names the last occurrence: it is in range, it holds
/// `c` when non-negative, and nothing after it holds `c`.
pub proof fn lemma_last_index_of(s: Seq<char>, c: char)
    ensures
        -1 <= last_index_of(s, c) < s.len(),
        last_index_of(s, c) >= 0 ==> s[last_index_of(s, c)] == c,
        forall|j: int| last_index_of(s, c) < j < s.len() ==> s[j] != c,
    decreases s.len(),
{
    if s.len() == 0 {
    } else if s[s.len() - 1] == c {
    } else {
        let pre = s.subrange(0, s.len() - 1);
        lemma_last_index_of(pre, c);
        assert forall|j: int| last_index_of(s, c) < j < s.len() implies s[j] != c by {
            if j < s.len() - 1 {
                assert(pre[j] == s[j]);
            }
        }
        if last_index_of(s, c) >= 0 {
            assert(pre[last_index_of(s, c)] == s[last_index_of(s, c)]);
        }
    }
}

/// The final segment of a path: everything after the last `/`, or the whole
/// string when no `/` occurs.
pub open spec fn spec_file_name(p: Seq<char>) -> Seq<char> {
    p.subrange(last_index_of(p, '/') + 1, p.len() as int)
}

/// Whether a name carries an extension, i.e. contains a `.`.
pub open spec fn spec_has_extension(name: Seq<char>) -> bool {
    last_index_of(name, '.') >= 0
}

/// The extension of a name: everything after the last `.`.
pub open spec fn spec_extension(name: Seq<char>) -> Seq<char> {
    name.subrange(last_index_of(name, '.') + 1, name.len() as int)
}

/// Position one past the last occurrence of `c` in `s`, or `0` when `c` does
/// not occur.
fn seg_start(s: &str, c: char) -> (r: usize)
    ensures
        r == last_index_of(s@, c) + 1,
{
    let n = s.unicode_len();
    proof {
        assert(s@.subrange(0, n as int) =~= s@);
    }
    let mut i = n;
    while i > 0
        invariant
            i <= n,
            n == s@.len(),
            last_index_of(s@, c) == last_index_of(s@.subrange(0, i as int), c),
        decreases i,
    {
        let ch = s.get_char(i - 1);
        proof {
            assert(s@.subrange(0, i as int)[i - 1] == s@[i - 1]);
        }
        if ch == c {
            return i;
        }
        proof {
            assert(s@.subrange(0, i as int).subrange(0, i - 1) =~= s@.subrange(0, i - 1));
        }
        i = i - 1;
    }
    0
}

/// Character-wise string equality: `r` holds exactly when the two views agree.
pub fn str_eq(a: &str, b: &str) -> (r: bool)
    ensures
        r == (a@ == b@),
{
    let n = a.unicode_len();
    if n != b.unicode_len() {
        return false;
    }
    let mut i: usize = 0;
    while i < n
        invariant
            i <= n,
            n == a@.len(),
            n == b@.len(),
            forall|j: int| 0 <= j < i ==> a@[j] == b@[j],
        decreases n - i,
    {
        if a.get_char(i) != b.get_char(i) {
            proof {
                assert(a@[i as int] != b@[i as int]);
            }
            return false;
        }
        i = i + 1;
    }
    proof {
        assert(a@ =~= b@);
    }
    true
}

/// The final segment of `path`: everything after the last `/`.
pub fn file_name_of(path: &str) -> (r: String)
    ensures
        r@ == spec_file_name(path@),
{
    let n = path.unicode_len();
    let start = seg_start(path, '/');
    proof {
        lemma_last_index_of(path@, '/');
    }
    String::from_str(path.substring_char(start, n))
}

/// The extension of `name` — everything after its last `.` — or `None` when
/// `name` contains no `.`.
pub fn extension_of(name: &str) -> (r: Option<String>)
    ensures
        r is Some <==> spec_has_extension(name@),
        r matches Some(e) ==> e@ == spec_extension(name@),
{
    let n = name.unicode_len();
    let start = seg_start(name, '.');
    proof {
        lemma_last_index_of(name@, '.');
    }
    if start == 0 {
        None
    } else {
        Some(String::from_str(name.substring_char(start, n)))
    }
}

} // verus!
