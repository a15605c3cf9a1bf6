//! What holds of every scan: the filtering rules, the excluded extensions,
//! and the depth-first order in which a walk meets the files of a folder tree.
use vstd::prelude::*;

use crate::configuration::lower_of;
use crate::path::extension_of;
use crate::scan::{accepts, classify, classify_all, settle, stacked, Entry, Scan};

verus! {

/// Whether the file at `path` is turned away by `exts`, having extension `e`.
pub open spec fn rejected_with(exts: Seq<Seq<char>>, path: Seq<char>, e: Seq<char>) -> bool {
    !accepts(exts, extension_of(path)) && extension_of(path) == Some(e)
}

/// With a non-empty list of accepted extensions, every found path has an
/// extension whose lower-case form is listed, so no path without an extension
/// is ever found.
pub proof fn lemma_found_paths_have_listed_extensions(
    exts: Seq<Seq<char>>,
    files: Seq<Seq<char>>,
)
    requires
        exts.len() > 0,
    ensures
        forall|i: int|
            0 <= i < classify_all(exts, files).0.len() ==> match extension_of(
                #[trigger] classify_all(exts, files).0[i],
            ) {
                Some(e) => exts.contains(lower_of(e)),
                None => false,
            },
    decreases files.len(),
{
    if files.len() > 0 {
        lemma_found_paths_have_listed_extensions(exts, files.drop_last());
    }
}

/// With no accepted extension listed, every file is found, once and in order,
/// and no extension is excluded.
pub proof fn lemma_empty_extensions_accept_all(exts: Seq<Seq<char>>, files: Seq<Seq<char>>)
    requires
        exts.len() == 0,
    ensures
        classify_all(exts, files).0 == files,
        classify_all(exts, files).1 == Seq::<Seq<char>>::empty(),
    decreases files.len(),
{
    if files.len() > 0 {
        lemma_empty_extensions_accept_all(exts, files.drop_last());
        assert(files.drop_last().push(files.last()) =~= files);
    }
}

/// The excluded extensions are exactly the extensions of the rejected files,
/// each listed once however many rejected files share it.
pub proof fn lemma_excluded_are_distinct_rejected_extensions(
    exts: Seq<Seq<char>>,
    files: Seq<Seq<char>>,
)
    ensures
        classify_all(exts, files).1.no_duplicates(),
        forall|e: Seq<char>|
            #[trigger] classify_all(exts, files).1.contains(e) <==> exists|i: int|
                0 <= i < files.len() && #[trigger] rejected_with(exts, files[i], e),
    decreases files.len(),
{
    if files.len() > 0 {
        let prefix = files.drop_last();
        lemma_excluded_are_distinct_rejected_extensions(exts, prefix);
        let before = classify_all(exts, prefix).1;
        let after = classify_all(exts, files).1;
        let last = files.last();
        assert(after == classify(exts, classify_all(exts, prefix), last).1);
        assert forall|e: Seq<char>| #[trigger]
            after.contains(e) <==> exists|i: int|
                0 <= i < files.len() && #[trigger] rejected_with(exts, files[i], e) by {
            let in_prefix = exists|i: int|
                0 <= i < prefix.len() && #[trigger] rejected_with(exts, prefix[i], e);
            let in_files = exists|i: int|
                0 <= i < files.len() && #[trigger] rejected_with(exts, files[i], e);
            if let Some(e0) = extension_of(last) {
                if !accepts(exts, extension_of(last)) && !before.contains(e0) {
                    assert(after == before.push(e0));
                    if after.contains(e) {
                        let j = choose|j: int| 0 <= j < after.len() && after[j] == e;
                        if j < before.len() {
                            assert(before[j] == e);
                        }
                    }
                    if before.contains(e) {
                        let j = choose|j: int| 0 <= j < before.len() && before[j] == e;
                        assert(after[j] == e);
                    }
                    if e == e0 {
                        assert(after[before.len() as int] == e);
                    }
                }
            }
            assert(after.contains(e) <==> (before.contains(e) || rejected_with(exts, last, e)));
            if in_prefix {
                let i = choose|i: int| 0 <= i < prefix.len() && #[trigger] rejected_with(exts, prefix[i], e);
                assert(rejected_with(exts, files[i], e));
            }
            if rejected_with(exts, last, e) {
                assert(rejected_with(exts, files[files.len() - 1], e));
            }
            if in_files {
                let i = choose|i: int| 0 <= i < files.len() && #[trigger] rejected_with(exts, files[i], e);
                if i < files.len() - 1 {
                    assert(rejected_with(exts, prefix[i], e));
                }
            }
        }
    }
}

/// Two scans under the same configuration that have met the same files in the
/// same order, as two walks over an unchanged tree do, hold the same result.
pub proof fn lemma_same_files_same_result(a: &Scan, b: &Scan)
    requires
        a.wf(),
        b.wf(),
        a.configuration() == b.configuration(),
        a.seen() == b.seen(),
    ensures
        a.result().model() == b.result().model(),
{
}

/// A folder tree as a scan meets it: files, and folders with their listings.
pub enum Node {
    File(String),
    Folder(String, Seq<Node>),
}

/// The entry by which a listing names a node.
pub open spec fn entry_of(n: Node) -> Entry {
    match n {
        Node::File(p) => Entry::File(p),
        Node::Folder(f, _) => Entry::Folder(f),
    }
}

/// The entries by which a listing names nodes.
pub open spec fn entries_of(ns: Seq<Node>) -> Seq<Entry> {
    ns.map_values(|n: Node| entry_of(n))
}

/// The files at or under a node, depth first.
pub open spec fn files_of(n: Node) -> Seq<Seq<char>>
    decreases n,
{
    match n {
        Node::File(p) => seq![p@],
        Node::Folder(_, kids) => files_under(kids),
    }
}

/// The files under a sequence of nodes, depth first, in the nodes' order.
pub open spec fn files_under(ns: Seq<Node>) -> Seq<Seq<char>>
    decreases ns,
{
    if ns.len() == 0 {
        Seq::empty()
    } else {
        files_under(ns.drop_last()) + files_of(ns.last())
    }
}

/// The files still to come out of a stack of nodes, in the order a depth-first walk meets them.
pub open spec fn to_come(stack: Seq<Node>) -> Seq<Seq<char>> {
    files_under(stacked(stack))
}

proof fn lemma_files_under_push(ns: Seq<Node>, n: Node)
    ensures
        files_under(ns.push(n)) == files_under(ns) + files_of(n),
{
    assert(ns.push(n).drop_last() =~= ns);
}

proof fn lemma_files_under_concat(a: Seq<Node>, b: Seq<Node>)
    ensures
        files_under(a + b) == files_under(a) + files_under(b),
    decreases b.len(),
{
    if b.len() == 0 {
        assert(a + b =~= a);
        assert(files_under(b) =~= Seq::<Seq<char>>::empty());
        assert(files_under(a) + files_under(b) =~= files_under(a));
    } else {
        lemma_files_under_concat(a, b.drop_last());
        assert((a + b).drop_last() =~= a + b.drop_last());
        assert((a + b).last() == b.last());
        assert(files_under(a) + files_under(b) =~= files_under(a) + files_under(b.drop_last())
            + files_of(b.last()));
    }
}

proof fn lemma_to_come_push(stack: Seq<Node>, n: Node)
    ensures
        to_come(stack.push(n)) == files_of(n) + to_come(stack),
{
    assert(stacked(stack.push(n)) =~= seq![n] + stacked(stack));
    lemma_files_under_concat(seq![n], stacked(stack));
    lemma_files_under_push(Seq::empty(), n);
    assert(Seq::<Node>::empty().push(n) =~= seq![n]);
    assert(files_under(Seq::<Node>::empty()) =~= Seq::<Seq<char>>::empty());
    assert(Seq::<Seq<char>>::empty() + files_of(n) =~= files_of(n));
}

/// Considering the files on top of a stack of nodes loses none, repeats none,
/// and keeps their depth-first order: the files seen, followed by those still
/// to come, stay the same. A folder taken from the stack is the node right
/// under the files considered.
pub proof fn lemma_settle_keeps_walk_order(stack: Seq<Node>, seen: Seq<Seq<char>>)
    ensures
        ({
            let (pending, seen2, top) = settle(entries_of(stack), seen);
            let k = pending.len() as int;
            &&& 0 <= k <= stack.len()
            &&& pending == entries_of(stack.take(k))
            &&& match top {
                None => k == 0 && seen2 == seen + to_come(stack),
                Some(f) => {
                    &&& k < stack.len()
                    &&& entry_of(stack[k]) == Entry::Folder(f)
                    &&& seen2 + to_come(stack.take(k + 1)) == seen + to_come(stack)
                },
            }
        }),
    decreases stack.len(),
{
    let es = entries_of(stack);
    if stack.len() == 0 {
        assert(stack.take(0) =~= stack);
        assert(entries_of(stack.take(0)) =~= es);
        assert(to_come(stack) =~= Seq::<Seq<char>>::empty());
        assert(seen + to_come(stack) =~= seen);
    } else {
        let rest = stack.drop_last();
        assert(es.drop_last() =~= entries_of(rest));
        assert(stack =~= rest.push(stack.last()));
        lemma_to_come_push(rest, stack.last());
        match stack.last() {
            Node::File(p) => {
                lemma_settle_keeps_walk_order(rest, seen.push(p@));
                let r = settle(entries_of(rest), seen.push(p@));
                let k = r.0.len() as int;
                assert(rest.take(k) =~= stack.take(k));
                if r.2 is Some {
                    assert(rest.take(k + 1) =~= stack.take(k + 1));
                }
                assert(seen.push(p@) + to_come(stack.drop_last()) =~= seen + (seq![p@] + to_come(rest)));
                assert(seq![p@] + to_come(rest) == files_of(stack.last()) + to_come(rest));
            },
            Node::Folder(f, _) => {
                assert(rest =~= stack.take(stack.len() - 1));
                assert(stack.take(stack.len() as int) =~= stack);
            },
        }
    }
}

/// Putting a folder's listing on the stack in its place loses none of the
/// files to come and keeps their depth-first order.
pub proof fn lemma_entering_folder_keeps_walk_order(below: Seq<Node>, f: String, kids: Seq<Node>)
    ensures
        entries_of(below) + stacked(entries_of(kids)) == entries_of(below + stacked(kids)),
        to_come(below + stacked(kids)) == to_come(below.push(Node::Folder(f, kids))),
{
    assert(entries_of(below) + stacked(entries_of(kids)) =~= entries_of(below + stacked(kids)));
    assert(stacked(below + stacked(kids)) =~= kids + stacked(below));
    lemma_files_under_concat(kids, stacked(below));
    lemma_to_come_push(below, Node::Folder(f, kids));
}

/// A walk that starts with the root nodes on the stack, the first on top, has
/// all the files under them still to come, depth first and in the roots' order.
pub proof fn lemma_walk_starts_with_all_files(roots: Seq<Node>)
    ensures
        entries_of(stacked(roots)) == stacked(entries_of(roots)),
        to_come(stacked(roots)) == files_under(roots),
{
    assert(entries_of(stacked(roots)) =~= stacked(entries_of(roots)));
    assert(stacked(stacked(roots)) =~= roots);
}

} // verus!
