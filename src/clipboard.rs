//! The clipboard: which paths an add queues and what it writes.
use vstd::prelude::*;

use crate::store::{
    all_lines, append_text, is_line, lemma_parse_append, parse_lines, read_all,
    spec_append_text, views, ClipboardFileError,
};

verus! {

/// The paths of `resolved` that an add queues onto a clipboard holding
/// `existing`: each that can stand as a line and is not held yet, once, in
/// the order of its first occurrence.
pub open spec fn fresh(existing: Seq<Seq<char>>, resolved: Seq<Seq<char>>) -> Seq<Seq<char>>
    decreases resolved.len(),
{
    if resolved.len() == 0 {
        seq![]
    } else {
        let prev = resolved.drop_last();
        let p = resolved.last();
        if is_line(p) && !existing.contains(p) && !prev.contains(p) {
            fresh(existing, prev).push(p)
        } else {
            fresh(existing, prev)
        }
    }
}

/// An add queues exactly the paths given that can stand as a line and are
/// not queued yet.
pub proof fn lemma_fresh_contains(
    existing: Seq<Seq<char>>,
    resolved: Seq<Seq<char>>,
    p: Seq<char>,
)
    ensures
        fresh(existing, resolved).contains(p) <==> (resolved.contains(p) && is_line(p)
            && !existing.contains(p)),
    decreases resolved.len(),
{
    if resolved.len() > 0 {
        let prev = resolved.drop_last();
        lemma_fresh_contains(existing, prev, p);
        assert(resolved =~= prev.push(resolved.last()));
        if resolved.contains(p) && p != resolved.last() {
            let i = choose|i: int| 0 <= i < resolved.len() && resolved[i] == p;
            assert(prev[i] == p);
        }
        if prev.contains(p) {
            let i = choose|i: int| 0 <= i < prev.len() && prev[i] == p;
            assert(resolved[i] == p);
        }
        let f = fresh(existing, prev);
        let q = resolved.last();
        if is_line(q) && !existing.contains(q) && !prev.contains(q) {
            assert(f.push(q)[f.len() as int] == q);
            if f.push(q).contains(p) && p != q {
                let i = choose|i: int| 0 <= i < f.push(q).len() && f.push(q)[i] == p;
                assert(f[i] == p);
            }
            if f.contains(p) {
                let i = choose|i: int| 0 <= i < f.len() && f[i] == p;
                assert(f.push(q)[i] == p);
            }
        }
    }
}

/// An add never queues the same path twice.
pub proof fn lemma_fresh_unique(existing: Seq<Seq<char>>, resolved: Seq<Seq<char>>)
    ensures
        fresh(existing, resolved).no_duplicates(),
        all_lines(fresh(existing, resolved)),
    decreases resolved.len(),
{
    if resolved.len() > 0 {
        let prev = resolved.drop_last();
        let q = resolved.last();
        lemma_fresh_unique(existing, prev);
        let f = fresh(existing, prev);
        if is_line(q) && !existing.contains(q) && !prev.contains(q) {
            lemma_fresh_contains(existing, prev, q);
            assert forall|i: int, j: int|
                0 <= i < f.push(q).len() && 0 <= j < f.push(q).len() && i != j implies f.push(
                q,
            )[i] != f.push(q)[j] by {
                if i == f.len() {
                    assert(f[j] == f.push(q)[j]);
                } else if j == f.len() {
                    assert(f[i] == f.push(q)[i]);
                }
            }
            assert forall|i: int| 0 <= i < f.push(q).len() implies is_line(
                #[trigger] f.push(q)[i],
            ) by {
                if i < f.len() {
                    assert(f.push(q)[i] == f[i]);
                }
            }
        }
    }
}

/// The text of the clipboard file after an add of `resolved` to the file
/// holding `existing`: unchanged when there is nothing to queue.
pub open spec fn text_after_add(existing: Seq<char>, resolved: Seq<Seq<char>>) -> Seq<char> {
    let added = fresh(parse_lines(existing), resolved);
    if added.len() == 0 {
        existing
    } else {
        existing + spec_append_text(existing, added)
    }
}

proof fn lemma_parse_after_add(existing: Seq<char>, resolved: Seq<Seq<char>>)
    ensures
        parse_lines(text_after_add(existing, resolved)) == parse_lines(existing) + fresh(
            parse_lines(existing),
            resolved,
        ),
{
    let added = fresh(parse_lines(existing), resolved);
    lemma_fresh_unique(parse_lines(existing), resolved);
    if added.len() == 0 {
        assert(parse_lines(existing) + added =~= parse_lines(existing));
    } else {
        lemma_parse_append(existing, added);
    }
}

/// Spellings that resolve to one target are stored once: after an add the
/// clipboard holds no path twice (when it held none twice before), and it
/// holds exactly what it held and each resolved path that can stand as a
/// line.
pub proof fn lemma_add_stores_once(existing: Seq<char>, resolved: Seq<Seq<char>>)
    requires
        parse_lines(existing).no_duplicates(),
    ensures
        parse_lines(text_after_add(existing, resolved)).no_duplicates(),
        forall|p: Seq<char>|
            #![trigger parse_lines(text_after_add(existing, resolved)).contains(p)]
            parse_lines(text_after_add(existing, resolved)).contains(p) <==> (parse_lines(
                existing,
            ).contains(p) || (resolved.contains(p) && is_line(p))),
{
    let e = parse_lines(existing);
    let f = fresh(e, resolved);
    let stored = parse_lines(text_after_add(existing, resolved));
    lemma_parse_after_add(existing, resolved);
    lemma_fresh_unique(e, resolved);
    assert forall|p: Seq<char>| #[trigger] stored.contains(p) <==> (e.contains(p) || (
    resolved.contains(p) && is_line(p))) by {
        lemma_fresh_contains(e, resolved, p);
        if stored.contains(p) {
            let i = choose|i: int| 0 <= i < stored.len() && stored[i] == p;
            if i >= e.len() {
                assert(f[i - e.len()] == p);
            }
        }
        if e.contains(p) {
            let i = choose|i: int| 0 <= i < e.len() && e[i] == p;
            assert(stored[i] == p);
        }
        if f.contains(p) {
            let i = choose|i: int| 0 <= i < f.len() && f[i] == p;
            assert(stored[e.len() + i] == p);
        }
    }
    assert forall|i: int, j: int|
        0 <= i < stored.len() && 0 <= j < stored.len() && i != j implies stored[i]
        != stored[j] by {
        if i < e.len() && j >= e.len() {
            lemma_fresh_contains(e, resolved, stored[j]);
            assert(f[j - e.len()] == stored[j]);
            assert(e.contains(stored[i]));
        } else if j < e.len() && i >= e.len() {
            lemma_fresh_contains(e, resolved, stored[i]);
            assert(f[i - e.len()] == stored[i]);
            assert(e.contains(stored[j]));
        }
    }
}

/// Adding the same paths twice stores what adding them once stores: the
/// second add finds nothing to queue and leaves the file as it is.
pub proof fn lemma_add_idempotent(existing: Seq<char>, resolved: Seq<Seq<char>>)
    ensures
        fresh(parse_lines(text_after_add(existing, resolved)), resolved).len() == 0,
        text_after_add(text_after_add(existing, resolved), resolved) == text_after_add(
            existing,
            resolved,
        ),
{
    let once = text_after_add(existing, resolved);
    let e = parse_lines(existing);
    let f = fresh(e, resolved);
    let g = fresh(parse_lines(once), resolved);
    lemma_parse_after_add(existing, resolved);
    if g.len() > 0 {
        let p = g[0];
        assert(g.contains(p));
        lemma_fresh_contains(parse_lines(once), resolved, p);
        lemma_fresh_contains(e, resolved, p);
        if e.contains(p) {
            let i = choose|i: int| 0 <= i < e.len() && e[i] == p;
            assert(parse_lines(once)[i] == p);
        } else {
            let i = choose|i: int| 0 <= i < f.len() && f[i] == p;
            assert(parse_lines(once)[e.len() + i] == p);
        }
    }
}

/// Whether `p` can stand as one line of the clipboard file.
pub fn can_store(p: &str) -> (r: bool)
    ensures
        r == is_line(p@),
{
    let n: usize = p.unicode_len();
    let mut i: usize = 0;
    while i < n
        invariant
            n == p@.len(),
            i <= n,
            forall|j: int| 0 <= j < i ==> p@[j] != '\n',
        decreases n - i,
    {
        if p.get_char(i) == '\n' {
            assert(p@.contains('\n'));
            return false;
        }
        i = i + 1;
    }
    assert(!p@.contains('\n'));
    n > 0
}

/// Whether `v[0..end]` holds `s`.
fn holds(v: &Vec<String>, end: usize, s: &String) -> (r: bool)
    requires
        end <= v.len(),
    ensures
        r == views(v@).subrange(0, end as int).contains(s@),
{
    let ghost w = views(v@).subrange(0, end as int);
    let mut i: usize = 0;
    while i < end
        invariant
            end <= v.len(),
            w == views(v@).subrange(0, end as int),
            i <= end,
            forall|j: int| 0 <= j < i ==> w[j] != s@,
        decreases end - i,
    {
        if v[i] == *s {
            assert(w[i as int] == s@);
            return true;
        }
        i = i + 1;
    }
    false
}

/// The paths of `resolved` that an add queues onto a clipboard holding
/// `existing` (see `fresh`).
pub fn new_entries(existing: &Vec<String>, resolved: &Vec<String>) -> (r: Vec<String>)
    ensures
        views(r@) == fresh(views(existing@), views(resolved@)),
{
    let ghost e = views(existing@);
    let ghost rs = views(resolved@);
    let mut out: Vec<String> = Vec::new();
    let mut i: usize = 0;
    proof {
        assert(rs.subrange(0, 0) =~= Seq::<Seq<char>>::empty());
        assert(views(out@) =~= Seq::<Seq<char>>::empty());
    }
    while i < resolved.len()
        invariant
            e == views(existing@),
            rs == views(resolved@),
            i <= resolved.len(),
            views(out@) == fresh(e, rs.subrange(0, i as int)),
        decreases resolved.len() - i,
    {
        let p = &resolved[i];
        let ghost upto = rs.subrange(0, i + 1);
        proof {
            assert(upto.drop_last() =~= rs.subrange(0, i as int));
            assert(upto.last() == p@);
            assert(views(existing@).subrange(0, existing.len() as int) =~= e);
        }
        if can_store(p.as_str()) && !holds(existing, existing.len(), p) && !holds(resolved, i, p) {
            let q = p.clone();
            proof {
                assert(views(out@.push(q)) =~= views(out@).push(p@));
            }
            out.push(q);
        }
        i = i + 1;
    }
    proof {
        assert(rs.subrange(0, resolved.len() as int) =~= rs);
    }
    out
}

/// A failure of a clipboard command.
#[derive(Debug, Clone, PartialEq, Eq)]
pub enum ClipboardError {
    /// The clipboard file could not be locked or used.
    ClipboardFile(ClipboardFileError),
    /// An add found nothing to queue: no path resolved, or every one that
    /// did is queued already.
    NoNewFiles,
    /// The destination directory could not be resolved; the message says why.
    DestDir(String),
    /// A copy or move ran over every queued path, and some of them failed;
    /// those stay queued.
    PartialFail,
}

/// The clipboard kept in one file.
#[derive(Debug, Clone, PartialEq, Eq)]
pub struct Clipboard {
    path: String,
}

impl Clipboard {
    /// The clipboard kept in the file at `path`.
    pub fn new(path: String) -> (r: Clipboard)
        ensures
            r.spec_path() == path@,
    {
        Clipboard { path }
    }

    /// The path of the clipboard file.
    pub closed spec fn spec_path(&self) -> Seq<char> {
        self.path@
    }

    /// The path of the clipboard file.
    pub fn path(&self) -> (r: &str)
        ensures
            r@ == self.spec_path(),
    {
        self.path.as_str()
    }

    /// The queued paths, given the text read from the clipboard file under
    /// its lock.
    pub fn contents(&self, text: &str) -> (r: Vec<String>)
        ensures
            views(r@) == parse_lines(text@),
    {
        read_all(text)
    }

    /// Adds the canonical paths `resolved` to the clipboard whose file holds
    /// `existing`: the text to write at the end of the file, or `NoNewFiles`
    /// when there is nothing to queue, in which case nothing is written.
    pub fn add(&self, existing: &str, resolved: &Vec<String>) -> (r: Result<
        String,
        ClipboardError,
    >)
        ensures
            (r is Err) <==> fresh(parse_lines(existing@), views(resolved@)).len() == 0,
            r is Err ==> r == Err::<String, ClipboardError>(ClipboardError::NoNewFiles)
                && text_after_add(existing@, views(resolved@)) == existing@,
            r matches Ok(t) ==> existing@ + t@ == text_after_add(existing@, views(resolved@)),
            r matches Ok(t) ==> t@ == spec_append_text(
                existing@,
                fresh(parse_lines(existing@), views(resolved@)),
            ),
            r matches Ok(t) ==> parse_lines(existing@ + t@) == parse_lines(existing@) + fresh(
                parse_lines(existing@),
                views(resolved@),
            ),
    {
        let held = read_all(existing);
        let added = new_entries(&held, resolved);
        if added.len() == 0 {
            Err(ClipboardError::NoNewFiles)
        } else {
            proof {
                lemma_fresh_unique(views(held@), views(resolved@));
                lemma_parse_append(existing@, views(added@));
            }
            Ok(append_text(existing, &added))
        }
    }
}

} // verus!
