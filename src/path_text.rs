//! Path arithmetic on the text of canonical paths.
use vstd::prelude::*;

verus! {

/// Index of the last `/` in `p[0..n]`, or `-1` when there is none.
pub open spec fn last_slash_before(p: Seq<char>, n: int) -> int
    decreases n,
{
    if n <= 0 {
        -1
    } else if p[n - 1] == '/' {
        n - 1
    } else {
        last_slash_before(p, n - 1)
    }
}

/// The text after the last `/` of `p` (all of `p` when it has no `/`).
pub open spec fn last_component(p: Seq<char>) -> Seq<char> {
    p.subrange(last_slash_before(p, p.len() as int) + 1, p.len() as int)
}

/// `c` names no entry of a directory: it is empty, `.` or `..`.
pub open spec fn is_special_component(c: Seq<char>) -> bool {
    ||| c.len() == 0
    ||| (c.len() == 1 && c[0] == '.')
    ||| (c.len() == 2 && c[0] == '.' && c[1] == '.')
}

/// The final component of a canonical path, if it names an entry:
/// the root `/`, a path that ends in `/`, `.` or `..` has none.
pub open spec fn spec_file_name(p: Seq<char>) -> Option<Seq<char>> {
    if is_special_component(last_component(p)) {
        None
    } else {
        Some(last_component(p))
    }
}

/// `name` placed inside the directory `dir`.
pub open spec fn spec_join(dir: Seq<char>, name: Seq<char>) -> Seq<char> {
    if dir.len() > 0 && dir.last() == '/' {
        dir + name
    } else {
        dir + seq!['/'] + name
    }
}

proof fn lemma_last_slash_bounds(p: Seq<char>, n: int)
    requires
        0 <= n <= p.len(),
    ensures
        -1 <= last_slash_before(p, n) < n,
        last_slash_before(p, n) >= 0 ==> p[last_slash_before(p, n)] == '/',
        forall|j: int| last_slash_before(p, n) < j < n ==> p[j] != '/',
    decreases n,
{
    if n > 0 && p[n - 1] != '/' {
        lemma_last_slash_bounds(p, n - 1);
    }
}

/// The final component of the path `p`, or `None` where it has none that
/// names an entry (see `spec_file_name`).
pub fn file_name(p: &str) -> (r: Option<String>)
    ensures
        r matches Some(s) ==> spec_file_name(p@) == Some(s@),
        r is None ==> spec_file_name(p@) is None,
{
    let n: usize = p.unicode_len();
    let mut i: usize = n;
    while i > 0 && p.get_char(i - 1) != '/'
        invariant
            n == p@.len(),
            i <= n,
            last_slash_before(p@, n as int) == last_slash_before(p@, i as int),
        decreases i,
    {
        i = i - 1;
    }
    proof {
        lemma_last_slash_bounds(p@, n as int);
        assert(last_slash_before(p@, n as int) + 1 == i);
    }
    let last = p.substring_char(i, n);
    let len: usize = n - i;
    let special = len == 0 || (len == 1 && last.get_char(0) == '.') || (len == 2
        && last.get_char(0) == '.' && last.get_char(1) == '.');
    if special {
        None
    } else {
        Some(String::from_str(last))
    }
}

/// The path of `name` inside the directory `dir`.
pub fn join(dir: &str, name: &str) -> (r: String)
    ensures
        r@ == spec_join(dir@, name@),
{
    let n: usize = dir.unicode_len();
    let mut r = String::from_str(dir);
    if !(n > 0 && dir.get_char(n - 1) == '/') {
        r.append("/");
        proof {
            reveal_strlit("/");
        }
    }
    r.append(name);
    r
}

} // verus!
