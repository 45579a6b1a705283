//! Copy and move of the queued paths into a destination directory: where
//! each path lands, the plan of a recursive copy, and which paths stay
//! queued once the batch is over.
use vstd::prelude::*;

use crate::clipboard::ClipboardError;
use crate::path_text::{file_name, join, last_slash_before, spec_file_name, spec_join};
use crate::store::{all_lines, lemma_parse_render, parse_lines, render, render_lines, views};

verus! {

/// Why the transfer of one path failed.
#[derive(Debug, Clone, PartialEq, Eq)]
pub enum ExecErrorKind {
    /// The path has no final component to name it inside the destination.
    InvalidPath,
    /// The filesystem refused the operation; the message says why.
    Io(String),
}

/// The failure of one operation of a copy or a move, on the path `file`.
#[derive(Debug, Clone, PartialEq, Eq)]
pub struct ExecError {
    pub file: String,
    pub kind: ExecErrorKind,
}

impl ExecError {
    /// The failure `kind` on the path `file`.
    pub fn new(file: String, kind: ExecErrorKind) -> (r: ExecError)
        ensures
            r.file == file,
            r.kind == kind,
    {
        ExecError { file, kind }
    }
}

/// Where the queued path `p` lands inside the directory `dest`: the entry of
/// `dest` named by the final component of `p`.
pub fn target_in(p: &str, dest: &str) -> (r: Result<String, ExecError>)
    ensures
        match spec_file_name(p@) {
            None => r matches Err(e) && e.file@ == p@ && e.kind is InvalidPath,
            Some(n) => r matches Ok(t) && t@ == spec_join(dest@, n),
        },
{
    match file_name(p) {
        None => Err(ExecError::new(String::from_str(p), ExecErrorKind::InvalidPath)),
        Some(n) => Ok(join(dest, n.as_str())),
    }
}

/// What the walk of a queued path found at one place in its tree.
#[derive(Debug, Clone, PartialEq, Eq)]
pub enum EntryKind {
    /// A file, whose bytes are to be copied.
    File,
    /// A directory, to be created in the copy.
    Dir,
    /// A place that could not be read (its metadata, or the listing of a
    /// directory); the message says why.
    Unreadable(String),
}

/// One place in the tree under a queued path: `rel` is its path relative to
/// the queued path, empty for the queued path itself.
#[derive(Debug, Clone, PartialEq, Eq)]
pub struct TreeEntry {
    pub rel: String,
    pub kind: EntryKind,
}

/// One operation of a recursive copy.
#[derive(Debug, Clone, PartialEq, Eq)]
pub enum CopyStep {
    /// Create the directory (and any missing parents).
    CreateDir(String),
    /// Copy the bytes of the first file to the second, replacing it.
    CopyFile(String, String),
    /// Report a failure found while walking the tree.
    Fail(ExecError),
}

/// The place `rel` below `base`: `base` itself when `rel` is empty.
pub open spec fn under(base: Seq<char>, rel: Seq<char>) -> Seq<char> {
    if rel.len() == 0 {
        base
    } else {
        spec_join(base, rel)
    }
}

/// `step` is the copy of the entry `e` of the tree at `source` into the
/// tree at `target`.
pub open spec fn copies_entry(step: CopyStep, source: Seq<char>, target: Seq<char>, e: TreeEntry) -> bool {
    match e.kind {
        EntryKind::File => step matches CopyStep::CopyFile(from, to) && from@ == under(
            source,
            e.rel@,
        ) && to@ == under(target, e.rel@),
        EntryKind::Dir => step matches CopyStep::CreateDir(d) && d@ == under(target, e.rel@),
        EntryKind::Unreadable(m) => step matches CopyStep::Fail(err) && err.file@ == under(
            source,
            e.rel@,
        ) && err.kind == ExecErrorKind::Io(m),
    }
}

/// `steps` copy the entries of the tree at `source` into `target`, one step
/// for each entry and in the same order.
pub open spec fn mirrors(
    steps: Seq<CopyStep>,
    source: Seq<char>,
    target: Seq<char>,
    entries: Seq<TreeEntry>,
) -> bool {
    &&& steps.len() == entries.len()
    &&& forall|i: int|
        0 <= i < entries.len() ==> copies_entry(#[trigger] steps[i], source, target, entries[i])
}

fn under_exec(base: &str, rel: &String) -> (r: String)
    ensures
        r@ == under(base@, rel@),
{
    if rel.unicode_len() == 0 {
        String::from_str(base)
    } else {
        join(base, rel.as_str())
    }
}

/// The steps that copy the tree at `source`, whose entries the walk listed
/// in `entries`, into `target`: a directory is created, a file copied and an
/// unreadable place reported, each at the same relative path. Listed in the
/// order of a walk that lists a directory before what it holds, the steps
/// create each directory before they fill it.
pub fn copy_plan(source: &str, target: &str, entries: &Vec<TreeEntry>) -> (r: Vec<CopyStep>)
    ensures
        mirrors(r@, source@, target@, entries@),
{
    let mut steps: Vec<CopyStep> = Vec::new();
    let mut i: usize = 0;
    while i < entries.len()
        invariant
            i <= entries.len(),
            steps.len() == i,
            forall|j: int|
                0 <= j < i ==> copies_entry(
                    #[trigger] steps@[j],
                    source@,
                    target@,
                    entries@[j],
                ),
        decreases entries.len() - i,
    {
        let e = &entries[i];
        let step = match &e.kind {
            EntryKind::File => CopyStep::CopyFile(under_exec(source, &e.rel), under_exec(target, &e.rel)),
            EntryKind::Dir => CopyStep::CreateDir(under_exec(target, &e.rel)),
            EntryKind::Unreadable(m) => CopyStep::Fail(
                ExecError::new(under_exec(source, &e.rel), ExecErrorKind::Io(m.clone())),
            ),
        };
        steps.push(step);
        i = i + 1;
    }
    steps
}

/// The relative path of the directory that holds the place `rel`: empty
/// when `rel` is a name of the top directory itself.
pub open spec fn parent_rel(rel: Seq<char>) -> Seq<char> {
    let k = last_slash_before(rel, rel.len() as int);
    if k < 0 {
        seq![]
    } else {
        rel.subrange(0, k)
    }
}

/// The walk listed each place after the directory that holds it.
pub open spec fn listed_top_down(entries: Seq<TreeEntry>) -> bool {
    forall|i: int|
        #![trigger entries[i]]
        0 < i < entries.len() ==> exists|j: int|
            0 <= j < i && entries[j].kind is Dir && #[trigger] entries[j].rel@ == parent_rel(
                entries[i].rel@,
            )
}

/// A copy reproduces the tree: each file of the source tree is copied to the
/// same relative path under the target, and each directory is created there;
/// where the walk listed each place after the directory that holds it, the
/// copy creates that directory before it puts anything inside.
pub proof fn lemma_copy_reproduces_tree(
    steps: Seq<CopyStep>,
    source: Seq<char>,
    target: Seq<char>,
    entries: Seq<TreeEntry>,
    i: int,
)
    requires
        mirrors(steps, source, target, entries),
        0 <= i < entries.len(),
    ensures
        entries[i].kind is File ==> (steps[i] matches CopyStep::CopyFile(from, to) && from@
            == under(source, entries[i].rel@) && to@ == under(target, entries[i].rel@)),
        entries[i].kind is Dir ==> (steps[i] matches CopyStep::CreateDir(d) && d@ == under(
            target,
            entries[i].rel@,
        )),
        !(entries[i].kind is Unreadable) ==> !(steps[i] is Fail),
        listed_top_down(entries) && i > 0 ==> exists|j: int|
            0 <= j < i && (#[trigger] steps[j] matches CopyStep::CreateDir(d) && d@ == under(
                target,
                parent_rel(entries[i].rel@),
            )),
{
    assert(copies_entry(steps[i], source, target, entries[i]));
    if listed_top_down(entries) && i > 0 {
        let j = choose|j: int|
            0 <= j < i && entries[j].kind is Dir && #[trigger] entries[j].rel@ == parent_rel(
                entries[i].rel@,
            );
        assert(copies_entry(steps[j], source, target, entries[j]));
    }
}

/// The paths of `queued` whose transfer failed, in their order.
pub open spec fn spec_retained(queued: Seq<Seq<char>>, failed: Seq<bool>) -> Seq<Seq<char>>
    decreases queued.len(),
{
    if queued.len() == 0 || failed.len() == 0 {
        seq![]
    } else {
        let prev = spec_retained(queued.drop_last(), failed.drop_last());
        if failed.last() {
            prev.push(queued.last())
        } else {
            prev
        }
    }
}

proof fn lemma_retained_contains(queued: Seq<Seq<char>>, failed: Seq<bool>, p: Seq<char>)
    requires
        queued.len() == failed.len(),
    ensures
        spec_retained(queued, failed).contains(p) <==> exists|i: int|
            0 <= i < queued.len() && failed[i] && queued[i] == p,
        all_lines(queued) ==> all_lines(spec_retained(queued, failed)),
    decreases queued.len(),
{
    if queued.len() > 0 {
        let q = queued.drop_last();
        let f = failed.drop_last();
        let n: int = queued.len() - 1;
        lemma_retained_contains(q, f, p);
        let prev = spec_retained(q, f);
        if all_lines(queued) {
            assert(all_lines(q)) by {
                assert forall|i: int| 0 <= i < q.len() implies crate::store::is_line(#[trigger] q[i]) by {
                    assert(q[i] == queued[i]);
                }
            }
            if failed.last() {
                assert forall|i: int| 0 <= i < prev.push(queued.last()).len() implies
                    crate::store::is_line(#[trigger] prev.push(queued.last())[i]) by {
                    if i < prev.len() {
                        assert(prev.push(queued.last())[i] == prev[i]);
                    } else {
                        assert(queued[n] == queued.last());
                    }
                }
            }
        }
        if spec_retained(queued, failed).contains(p) {
            let k = choose|k: int| 0 <= k < spec_retained(queued, failed).len() && spec_retained(queued, failed)[k] == p;
            if k < prev.len() {
                assert(prev[k] == p);
                let i = choose|i: int| 0 <= i < q.len() && f[i] && q[i] == p;
                assert(failed[i] && queued[i] == p);
            } else {
                assert(failed[n] && queued[n] == p);
            }
        }
        if exists|i: int| 0 <= i < queued.len() && failed[i] && queued[i] == p {
            let i = choose|i: int| 0 <= i < queued.len() && failed[i] && queued[i] == p;
            if i < n {
                assert(f[i] && q[i] == p);
                let k = choose|k: int| 0 <= k < prev.len() && prev[k] == p;
                if failed.last() {
                    assert(prev.push(queued.last())[k] == p);
                }
            } else {
                assert(prev.push(queued.last())[prev.len() as int] == p);
            }
        }
    }
}

/// The paths of `queued` whose transfer failed (`failed[i]` for
/// `queued[i]`), in their order: what stays queued after the batch.
pub fn retained(queued: &Vec<String>, failed: &Vec<bool>) -> (r: Vec<String>)
    requires
        queued.len() == failed.len(),
    ensures
        views(r@) == spec_retained(views(queued@), failed@),
{
    let ghost qs = views(queued@);
    let mut out: Vec<String> = Vec::new();
    let mut i: usize = 0;
    proof {
        assert(views(out@) =~= Seq::<Seq<char>>::empty());
    }
    while i < queued.len()
        invariant
            qs == views(queued@),
            queued.len() == failed.len(),
            i <= queued.len(),
            views(out@) == spec_retained(qs.subrange(0, i as int), failed@.subrange(0, i as int)),
        decreases queued.len() - i,
    {
        proof {
            assert(qs.subrange(0, i + 1).drop_last() =~= qs.subrange(0, i as int));
            assert(failed@.subrange(0, i + 1).drop_last() =~= failed@.subrange(0, i as int));
        }
        if failed[i] {
            let p = queued[i].clone();
            proof {
                assert(views(out@.push(p)) =~= views(out@).push(p@));
            }
            out.push(p);
        }
        i = i + 1;
    }
    proof {
        assert(qs.subrange(0, queued.len() as int) =~= qs);
        assert(failed@.subrange(0, queued.len() as int) =~= failed@);
    }
    out
}

/// The end of a copy or move over `queued`, where `failed[i]` says whether
/// the transfer of `queued[i]` failed: the text that the clipboard file is
/// overwritten with (empty when every transfer succeeded), and the result of
/// the command, `PartialFail` when any transfer failed.
pub fn finish_batch(queued: &Vec<String>, failed: &Vec<bool>) -> (r: (String, Result<(), ClipboardError>))
    requires
        queued.len() == failed.len(),
    ensures
        r.0@ == render_lines(spec_retained(views(queued@), failed@)),
        (r.1 is Ok) <==> spec_retained(views(queued@), failed@).len() == 0,
        r.1 is Err ==> r.1 == Err::<(), ClipboardError>(ClipboardError::PartialFail),
{
    let kept = retained(queued, failed);
    let text = render(&kept);
    if kept.len() == 0 {
        (text, Ok(()))
    } else {
        (text, Err(ClipboardError::PartialFail))
    }
}

/// After a batch in which the transfers of some queued paths failed, the
/// clipboard holds exactly those paths.
pub proof fn lemma_batch_retains_failed(queued: Seq<Seq<char>>, failed: Seq<bool>)
    requires
        all_lines(queued),
        queued.len() == failed.len(),
    ensures
        parse_lines(render_lines(spec_retained(queued, failed))) == spec_retained(queued, failed),
        forall|p: Seq<char>|
            #![trigger parse_lines(render_lines(spec_retained(queued, failed))).contains(p)]
            parse_lines(render_lines(spec_retained(queued, failed))).contains(p) <==> exists|i: int|
                0 <= i < queued.len() && failed[i] && queued[i] == p,
{
    assert forall|p: Seq<char>| true implies (spec_retained(queued, failed).contains(p) <==> exists|i: int|
                0 <= i < queued.len() && failed[i] && queued[i] == p) by {
        lemma_retained_contains(queued, failed, p);
    }
    lemma_retained_contains(queued, failed, Seq::empty());
    lemma_parse_render(spec_retained(queued, failed));
}

} // verus!
