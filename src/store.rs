//! The clipboard file: its text format and the outcome of locking it.
//!
//! The file holds one path per line, each line ended by `\n`. Reading skips
//! empty lines; an empty file is an empty clipboard.
use vstd::prelude::*;

verus! {

/// The views of a sequence of strings.
pub open spec fn views(v: Seq<String>) -> Seq<Seq<char>> {
    v.map_values(|s: String| s@)
}

/// A finished line as an entry: an empty line gives none.
pub open spec fn keep_line(line: Seq<char>) -> Seq<Seq<char>> {
    if line.len() == 0 {
        seq![]
    } else {
        seq![line]
    }
}

/// The entries of the text `t`, where `cur` is the part of the current line
/// that came before `t`.
pub open spec fn lines_from(t: Seq<char>, cur: Seq<char>) -> Seq<Seq<char>>
    decreases t.len(),
{
    if t.len() == 0 {
        keep_line(cur)
    } else if t[0] == '\n' {
        keep_line(cur) + lines_from(t.drop_first(), seq![])
    } else {
        lines_from(t.drop_first(), cur.push(t[0]))
    }
}

/// The entries stored in the text `t` of a clipboard file: its non-empty
/// lines, in order.
pub open spec fn parse_lines(t: Seq<char>) -> Seq<Seq<char>> {
    lines_from(t, seq![])
}

/// The text that stores `ps`: each entry followed by `\n`.
pub open spec fn render_lines(ps: Seq<Seq<char>>) -> Seq<char>
    decreases ps.len(),
{
    if ps.len() == 0 {
        seq![]
    } else {
        ps[0] + seq!['\n'] + render_lines(ps.drop_first())
    }
}

/// `p` can stand as one line of the file: it is not empty and holds no `\n`.
pub open spec fn is_line(p: Seq<char>) -> bool {
    p.len() > 0 && !p.contains('\n')
}

/// Every entry of `ps` can stand as one line of the file.
pub open spec fn all_lines(ps: Seq<Seq<char>>) -> bool {
    forall|i: int| 0 <= i < ps.len() ==> is_line(#[trigger] ps[i])
}

/// The text `t` is empty or ends a line, so that what is written after it
/// starts a new line.
pub open spec fn ends_line(t: Seq<char>) -> bool {
    t.len() == 0 || t.last() == '\n'
}

/// The text to write at the end of the file whose text is `existing` so that
/// `ps` are added to it as lines.
pub open spec fn spec_append_text(existing: Seq<char>, ps: Seq<Seq<char>>) -> Seq<char> {
    if ends_line(existing) {
        render_lines(ps)
    } else {
        seq!['\n'] + render_lines(ps)
    }
}

proof fn lemma_lines_from_plain_prefix(a: Seq<char>, b: Seq<char>, cur: Seq<char>)
    requires
        !a.contains('\n'),
    ensures
        lines_from(a + b, cur) == lines_from(b, cur + a),
    decreases a.len(),
{
    if a.len() == 0 {
        assert(a + b =~= b);
        assert(cur + a =~= cur);
    } else {
        assert((a + b)[0] == a[0]);
        assert((a + b).drop_first() =~= a.drop_first() + b);
        assert(cur.push(a[0]) + a.drop_first() =~= cur + a);
        assert(!a.drop_first().contains('\n')) by {
            if a.drop_first().contains('\n') {
                let j = choose|j: int| 0 <= j < a.drop_first().len() && a.drop_first()[j] == '\n';
                assert(a[j + 1] == '\n');
            }
        }
        assert(a[0] != '\n');
        lemma_lines_from_plain_prefix(a.drop_first(), b, cur.push(a[0]));
    }
}

proof fn lemma_lines_from_trailing_newline(t: Seq<char>, cur: Seq<char>)
    ensures
        lines_from(t + seq!['\n'], cur) == lines_from(t, cur),
    decreases t.len(),
{
    if t.len() == 0 {
        assert(t + seq!['\n'] =~= seq!['\n']);
        assert(seq!['\n'].drop_first() =~= Seq::<char>::empty());
        assert(lines_from(Seq::<char>::empty(), seq![]) =~= Seq::<Seq<char>>::empty());
        assert(keep_line(cur) + Seq::<Seq<char>>::empty() =~= keep_line(cur));
        assert(lines_from(seq!['\n'], cur) == keep_line(cur) + lines_from(
            Seq::<char>::empty(),
            seq![],
        ));
    } else {
        assert((t + seq!['\n'])[0] == t[0]);
        assert((t + seq!['\n']).drop_first() =~= t.drop_first() + seq!['\n']);
        if t[0] == '\n' {
            lemma_lines_from_trailing_newline(t.drop_first(), seq![]);
        } else {
            lemma_lines_from_trailing_newline(t.drop_first(), cur.push(t[0]));
        }
    }
}

proof fn lemma_lines_from_concat(t1: Seq<char>, t2: Seq<char>, cur: Seq<char>)
    requires
        t1.len() > 0,
        t1.last() == '\n',
    ensures
        lines_from(t1 + t2, cur) == lines_from(t1, cur) + lines_from(t2, seq![]),
    decreases t1.len(),
{
    assert((t1 + t2)[0] == t1[0]);
    assert((t1 + t2).drop_first() =~= t1.drop_first() + t2);
    if t1.len() == 1 {
        assert(t1.drop_first() =~= Seq::<char>::empty());
        assert(t1.drop_first() + t2 =~= t2);
        assert(keep_line(cur) + Seq::<Seq<char>>::empty() =~= keep_line(cur));
    } else if t1[0] == '\n' {
        lemma_lines_from_concat(t1.drop_first(), t2, seq![]);
        assert(keep_line(cur) + (lines_from(t1.drop_first(), seq![]) + lines_from(t2, seq![]))
            =~= (keep_line(cur) + lines_from(t1.drop_first(), seq![])) + lines_from(t2, seq![]));
    } else {
        lemma_lines_from_concat(t1.drop_first(), t2, cur.push(t1[0]));
    }
}

/// Text that ends a line can be followed by more: the entries of the whole
/// are those of the first part, then those of the second.
pub proof fn lemma_parse_concat(t1: Seq<char>, t2: Seq<char>)
    requires
        ends_line(t1),
    ensures
        parse_lines(t1 + t2) == parse_lines(t1) + parse_lines(t2),
{
    if t1.len() == 0 {
        assert(t1 + t2 =~= t2);
        assert(parse_lines(t1) + parse_lines(t2) =~= parse_lines(t2));
    } else {
        lemma_lines_from_concat(t1, t2, seq![]);
    }
}

/// A cleared clipboard file is empty, and empty text holds no entries,
/// whatever the file held before.
pub proof fn lemma_cleared_is_empty()
    ensures
        parse_lines(Seq::<char>::empty()) == Seq::<Seq<char>>::empty(),
        render_lines(Seq::<Seq<char>>::empty()) == Seq::<char>::empty(),
{
    assert(parse_lines(Seq::<char>::empty()) =~= Seq::<Seq<char>>::empty());
}

/// Writing entries and reading them back gives the same entries.
pub proof fn lemma_parse_render(ps: Seq<Seq<char>>)
    requires
        all_lines(ps),
    ensures
        parse_lines(render_lines(ps)) == ps,
    decreases ps.len(),
{
    if ps.len() == 0 {
        assert(parse_lines(render_lines(ps)) =~= ps);
    } else {
        let rest = ps.drop_first();
        assert(all_lines(rest)) by {
            assert forall|i: int| 0 <= i < rest.len() implies is_line(#[trigger] rest[i]) by {
                assert(rest[i] == ps[i + 1]);
            }
        }
        lemma_parse_render(rest);
        assert(is_line(ps[0]));
        let t = ps[0] + seq!['\n'] + render_lines(rest);
        assert(t =~= ps[0] + (seq!['\n'] + render_lines(rest)));
        lemma_lines_from_plain_prefix(ps[0], seq!['\n'] + render_lines(rest), seq![]);
        assert(Seq::<char>::empty() + ps[0] =~= ps[0]);
        assert((seq!['\n'] + render_lines(rest)).drop_first() =~= render_lines(rest));
        assert(ps =~= seq![ps[0]] + rest);
    }
}

/// Text written by `spec_append_text` at the end of a file adds exactly
/// `ps` to the entries read from it.
pub proof fn lemma_parse_append(existing: Seq<char>, ps: Seq<Seq<char>>)
    requires
        all_lines(ps),
    ensures
        parse_lines(existing + spec_append_text(existing, ps)) == parse_lines(existing) + ps,
{
    lemma_parse_render(ps);
    if ends_line(existing) {
        lemma_parse_concat(existing, render_lines(ps));
    } else {
        assert(existing + (seq!['\n'] + render_lines(ps)) =~= (existing + seq!['\n'])
            + render_lines(ps));
        lemma_lines_from_trailing_newline(existing, seq![]);
        lemma_parse_concat(existing + seq!['\n'], render_lines(ps));
    }
}

proof fn lemma_views_push(v: Seq<String>, s: String)
    ensures
        views(v.push(s)) == views(v).push(s@),
{
    assert(views(v.push(s)) =~= views(v).push(s@));
}

/// The entries stored in the text of a clipboard file: its non-empty lines.
pub fn read_all(text: &str) -> (r: Vec<String>)
    ensures
        views(r@) == parse_lines(text@),
{
    broadcast use vstd::string::group_string_axioms;

    let ghost t = text@;
    let n: usize = text.unicode_len();
    let mut out: Vec<String> = Vec::new();
    let mut start: usize = 0;
    let mut i: usize = 0;
    proof {
        assert(t.subrange(0, n as int) =~= t);
        assert(t.subrange(0, 0) =~= Seq::<char>::empty());
        assert(views(out@) + parse_lines(t) =~= parse_lines(t));
    }
    for c in it: text.chars()
        invariant
            n == t.len(),
            t == text@,
            it.seq() == t,
            i == it.index(),
            start <= i <= n,
            views(out@) + lines_from(t.subrange(i as int, n as int), t.subrange(
                start as int,
                i as int,
            )) == parse_lines(t),
    {
        let ghost rest = t.subrange(i as int, n as int);
        assert(rest[0] == c);
        assert(rest.drop_first() =~= t.subrange(i + 1, n as int));
        if c == '\n' {
            if start < i {
                let line = String::from_str(text.substring_char(start, i));
                proof {
                    lemma_views_push(out@, line);
                    assert(keep_line(t.subrange(start as int, i as int)) =~= seq![line@]);
                }
                out.push(line);
            } else {
                assert(keep_line(t.subrange(start as int, i as int)) =~= Seq::<Seq<char>>::empty());
            }
            assert(t.subrange((i + 1) as int, (i + 1) as int) =~= Seq::<char>::empty());
            i = i + 1;
            start = i;
        } else {
            assert(t.subrange(start as int, i as int).push(c) =~= t.subrange(start as int, i + 1));
            i = i + 1;
        }
    }
    proof {
        assert(t.subrange(n as int, n as int) =~= Seq::<char>::empty());
    }
    if start < n {
        let line = String::from_str(text.substring_char(start, n));
        proof {
            lemma_views_push(out@, line);
            assert(keep_line(t.subrange(start as int, n as int)) =~= seq![line@]);
        }
        out.push(line);
    } else {
        assert(keep_line(t.subrange(start as int, n as int)) =~= Seq::<Seq<char>>::empty());
    }
    proof {
        assert(views(out@) =~= parse_lines(t));
    }
    out
}

proof fn lemma_render_push(ps: Seq<Seq<char>>, p: Seq<char>)
    ensures
        render_lines(ps.push(p)) == render_lines(ps) + p + seq!['\n'],
    decreases ps.len(),
{
    if ps.len() == 0 {
        assert(ps.push(p).drop_first() =~= Seq::<Seq<char>>::empty());
        assert(ps.push(p)[0] == p);
        assert(render_lines(Seq::<Seq<char>>::empty()) =~= Seq::<char>::empty());
        assert(render_lines(ps.push(p)) =~= render_lines(ps) + p + seq!['\n']);
    } else {
        assert(ps.push(p).drop_first() =~= ps.drop_first().push(p));
        lemma_render_push(ps.drop_first(), p);
        assert(ps.push(p)[0] == ps[0]);
        let a = ps[0] + seq!['\n'];
        let b = render_lines(ps.drop_first());
        assert(render_lines(ps.push(p)) == a + (b + p + seq!['\n']));
        assert(a + (b + p + seq!['\n']) =~= (a + b) + p + seq!['\n']);
    }
}

/// The text that stores `paths`, one per line.
pub fn render(paths: &Vec<String>) -> (r: String)
    ensures
        r@ == render_lines(views(paths@)),
{
    let mut out = String::new();
    let mut i: usize = 0;
    proof {
        assert(views(paths@).subrange(0, 0) =~= Seq::<Seq<char>>::empty());
    }
    while i < paths.len()
        invariant
            i <= paths.len(),
            out@ == render_lines(views(paths@).subrange(0, i as int)),
        decreases paths.len() - i,
    {
        proof {
            let ps = views(paths@);
            assert(ps.subrange(0, i + 1) =~= ps.subrange(0, i as int).push(paths@[i as int]@));
            lemma_render_push(ps.subrange(0, i as int), paths@[i as int]@);
            reveal_strlit("\n");
        }
        out.append(paths[i].as_str());
        out.append("\n");
        i = i + 1;
    }
    proof {
        assert(views(paths@).subrange(0, paths.len() as int) =~= views(paths@));
    }
    out
}

/// The text to write at the end of a clipboard file whose text is `existing`
/// so that `paths` are added to it, one per line.
pub fn append_text(existing: &str, paths: &Vec<String>) -> (r: String)
    ensures
        r@ == spec_append_text(existing@, views(paths@)),
{
    let n: usize = existing.unicode_len();
    let lines = render(paths);
    if n == 0 || existing.get_char(n - 1) == '\n' {
        lines
    } else {
        let mut r = String::from_str("\n");
        proof {
            reveal_strlit("\n");
        }
        r.append(lines.as_str());
        r
    }
}

/// What came of trying to take the exclusive lock on the clipboard file
/// without waiting for it.
#[derive(Debug, Clone, PartialEq, Eq)]
pub enum LockStatus {
    /// The lock is held by this process.
    Acquired,
    /// Another process holds the lock.
    HeldByOther,
    /// The attempt failed for another reason, described by the message.
    Failed(String),
}

/// A failure to use the clipboard file.
#[derive(Debug, Clone, PartialEq, Eq)]
pub enum ClipboardFileError {
    /// The lock could not be taken: another process holds it (`None`), or
    /// the attempt failed with the message given.
    Lock(Option<String>),
    /// The file could not be opened, read, written or truncated.
    Access(String),
}

/// The result of an attempt to lock the clipboard file: the lock is never
/// waited for, so a lock held elsewhere is an error at once.
pub fn lock_result(status: LockStatus) -> (r: Result<(), ClipboardFileError>)
    ensures
        (r is Ok) <==> (status is Acquired),
        status is HeldByOther ==> r == Err::<(), ClipboardFileError>(
            ClipboardFileError::Lock(None),
        ),
        status matches LockStatus::Failed(m) ==> r == Err::<(), ClipboardFileError>(
            ClipboardFileError::Lock(Some(m)),
        ),
{
    match status {
        LockStatus::Acquired => Ok(()),
        LockStatus::HeldByOther => Err(ClipboardFileError::Lock(None)),
        LockStatus::Failed(m) => Err(ClipboardFileError::Lock(Some(m))),
    }
}

} // verus!
