//! What the process table says: parents, owners, and the tree below a process.

use crate::text;
use std::collections::{HashMap, HashSet};
use vstd::prelude::*;
use vstd::slice::slice_subrange;

verus! {

// ---------------------------------------------------------------------------
// Entries of the process table
// ---------------------------------------------------------------------------

/// The text as a process number.
pub fn parse_pid(name: &str) -> (pid: Option<u32>)
    ensures
        pid == text::u32_value(name@),
{
    let chars = text::to_chars(name);
    text::parse_u32(&chars)
}

/// The parent that a `stat` line names. The name of the command, which may
/// hold anything, ends at the last closing bracket before a space; behind it
/// stand the state and then the parent.
pub open spec fn parent_in_stat(stat: Seq<char>) -> Option<u32> {
    match text::rfind(stat, ") "@) {
        Some(i) => {
            let fields = text::words(stat.skip(i + 2));
            if fields.len() < 2 {
                None
            } else {
                text::u32_value(fields[1])
            }
        },
        None => None,
    }
}

/// The parent that the line `stat` of a process names.
pub fn parse_ppid_from_stat(stat: &str) -> (ppid: Option<u32>)
    ensures
        ppid == parent_in_stat(stat@),
{
    let chars = text::to_chars(stat);
    let all: &[char] = &chars;
    let end = text::to_chars(") ");
    proof {
        reveal_strlit(") ");
    }
    match text::rfind_chars(all, &end) {
        Some(i) => {
            assert(i + 2 <= all.len());
            let rest = slice_subrange(all, i + 2, all.len());
            assert(rest@ == stat@.skip(i + 2));
            let fields = text::split_words(rest);
            assert(fields.len() == text::words(rest@).len());
            if fields.len() < 2 {
                return None;
            }
            assert(text::pieces(fields@)[1] == fields@[1]@);
            text::parse_u32(fields[1])
        },
        None => None,
    }
}

/// The uid that the first of the lines that begin with `Uid:` names.
pub open spec fn uid_in_lines(lines: Seq<Seq<char>>) -> Option<u32>
    decreases lines.len(),
{
    if lines.len() == 0 {
        None
    } else if "Uid:"@.is_prefix_of(lines[0]) {
        let fields = text::words(lines[0]);
        if fields.len() < 2 {
            None
        } else {
            text::u32_value(fields[1])
        }
    } else {
        uid_in_lines(lines.skip(1))
    }
}

/// The real uid that the `status` text of a process names.
pub fn parse_uid_from_status(status: &str) -> (uid: Option<u32>)
    ensures
        uid == uid_in_lines(text::lines(status@)),
{
    let chars = text::to_chars(status);
    let lines = text::split_lines(&chars);
    let label = text::to_chars("Uid:");
    let ghost all = text::lines(status@);
    let mut i: usize = 0;
    assert(all.skip(0) == all);
    while i < lines.len()
        invariant
            i <= lines.len(),
            all == text::lines(status@),
            text::pieces(lines@) == all,
            label@ == "Uid:"@,
            uid_in_lines(all.skip(i as int)) == uid_in_lines(all),
        decreases lines.len() - i,
    {
        let ghost rest = all.skip(i as int);
        assert(rest[0] == lines@[i as int]@);
        assert(rest.skip(1) == all.skip(i + 1));
        let line = lines[i];
        if text::starts_with(line, &label) {
            let fields = text::split_words(line);
            assert(fields.len() == text::words(line@).len());
            if fields.len() < 2 {
                return None;
            }
            assert(text::pieces(fields@)[1] == fields@[1]@);
            return text::parse_u32(fields[1]);
        }
        i += 1;
    }
    None
}

// ---------------------------------------------------------------------------
// The tree below a process
// ---------------------------------------------------------------------------

/// A process and the text of its `stat` file.
#[derive(Debug)]
pub struct ProcEntry {
    pub pid: u32,
    pub stat: String,
}

/// A process and its parent.
#[derive(Clone, Copy, PartialEq, Eq, Structural, Debug)]
pub struct ProcLink {
    pub pid: u32,
    pub parent: u32,
}

/// The parents of the processes whose `stat` names one, in order.
pub open spec fn links_of(entries: Seq<ProcEntry>) -> Seq<ProcLink>
    decreases entries.len(),
{
    if entries.len() == 0 {
        seq![]
    } else {
        let before = links_of(entries.drop_last());
        match parent_in_stat(entries.last().stat@) {
            Some(parent) => before.push(ProcLink { pid: entries.last().pid, parent }),
            None => before,
        }
    }
}

/// The children of the process `parent`, in order.
pub open spec fn children(links: Seq<ProcLink>, parent: u32) -> Seq<u32>
    decreases links.len(),
{
    if links.len() == 0 {
        seq![]
    } else {
        let before = children(links.drop_last(), parent);
        if links.last().parent == parent {
            before.push(links.last().pid)
        } else {
            before
        }
    }
}

/// `order`, and then those of `more` that are new, each once.
pub open spec fn with_new(order: Seq<u32>, more: Seq<u32>) -> Seq<u32>
    decreases more.len(),
{
    if more.len() == 0 {
        order
    } else {
        let before = with_new(order, more.drop_last());
        if before.contains(more.last()) {
            before
        } else {
            before.push(more.last())
        }
    }
}

/// The processes found once the children of the first `n` of them were added.
pub open spec fn found_after(links: Seq<ProcLink>, root: u32, n: nat) -> Seq<u32>
    decreases n,
{
    if n == 0 {
        seq![root]
    } else {
        let before = found_after(links, root, (n - 1) as nat);
        if n - 1 < before.len() {
            with_new(before, children(links, before[n - 1]))
        } else {
            before
        }
    }
}

/// `root` and its descendants, level by level.
pub open spec fn tree(links: Seq<ProcLink>, root: u32) -> Seq<u32> {
    found_after(links, root, links.len() + 1)
}

/// The parents of the processes whose `stat` names one.
fn read_links(entries: &Vec<ProcEntry>) -> (links: Vec<ProcLink>)
    ensures
        links@ == links_of(entries@),
{
    let mut links: Vec<ProcLink> = Vec::new();
    let mut i: usize = 0;
    while i < entries.len()
        invariant
            i <= entries.len(),
            links@ == links_of(entries@.take(i as int)),
        decreases entries.len() - i,
    {
        assert(entries@.take(i + 1).drop_last() == entries@.take(i as int));
        if let Some(parent) = parse_ppid_from_stat(entries[i].stat.as_str()) {
            links.push(ProcLink { pid: entries[i].pid, parent });
        }
        i += 1;
    }
    assert(entries@.take(i as int) == entries@);
    links
}

/// `map` lists the children of every process that has some.
spec fn lists_children(map: Map<u32, Vec<u32>>, links: Seq<ProcLink>) -> bool {
    forall|p: u32| #[trigger]
        children(links, p) == (if map.contains_key(p) {
            map[p]@
        } else {
            seq![]
        })
}

fn group_by_parent(links: &Vec<ProcLink>) -> (by_parent: HashMap<u32, Vec<u32>>)
    ensures
        lists_children(by_parent@, links@),
{
    broadcast use vstd::std_specs::hash::group_hash_axioms;

    let mut by_parent: HashMap<u32, Vec<u32>> = HashMap::new();
    let mut i: usize = 0;
    while i < links.len()
        invariant
            i <= links.len(),
            lists_children(by_parent@, links@.take(i as int)),
        decreases links.len() - i,
    {
        let ghost before = by_parent@;
        let link = links[i];
        let slot = by_parent.entry(link.parent).or_insert(Vec::new());
        slot.push(link.pid);
        let ghost upto = links@.take(i + 1);
        assert(upto.drop_last() == links@.take(i as int));
        assert forall|p: u32| #[trigger]
            children(upto, p) == (if by_parent@.contains_key(p) {
                by_parent@[p]@
            } else {
                seq![]
            }) by {
            let was = children(links@.take(i as int), p);
        }
        i += 1;
    }
    assert(links@.take(i as int) == links@);
    by_parent
}

/// Every process in `order` is `root` or has an entry.
spec fn known(links: Seq<ProcLink>, root: u32, order: Seq<u32>) -> bool {
    forall|i: int|
        0 <= i < order.len() ==> (#[trigger] order[i] == root || exists|j: int|
            0 <= j < links.len() && (#[trigger] links[j]).pid == order[i])
}

proof fn lemma_known_bound(links: Seq<ProcLink>, root: u32, order: Seq<u32>)
    requires
        order.no_duplicates(),
        known(links, root, order),
    ensures
        order.len() <= links.len() + 1,
{
    let pids = links.map_values(|l: ProcLink| l.pid).push(root);
    order.unique_seq_to_set();
    pids.lemma_cardinality_of_set();
    assert(order.to_set().subset_of(pids.to_set())) by {
        assert forall|p: u32| order.to_set().contains(p) implies pids.to_set().contains(p) by {
            let i = choose|i: int| 0 <= i < order.len() && order[i] == p;
            if order[i] == root {
                assert(pids[links.len() as int] == root);
            } else {
                let j = choose|j: int|
                    0 <= j < links.len() && (#[trigger] links[j]).pid == order[i];
                assert(pids[j] == p);
            }
        }
    }
    vstd::seq_lib::seq_to_set_is_finite(pids);
    vstd::set_lib::lemma_len_subset(order.to_set(), pids.to_set());
}

proof fn lemma_children(links: Seq<ProcLink>, parent: u32, k: int)
    requires
        0 <= k < children(links, parent).len(),
    ensures
        exists|j: int|
            0 <= j < links.len() && (#[trigger] links[j]).pid == children(links, parent)[k]
                && links[j].parent == parent,
    decreases links.len(),
{
    let before = children(links.drop_last(), parent);
    if k < before.len() {
        lemma_children(links.drop_last(), parent, k);
        let j = choose|j: int|
            0 <= j < links.drop_last().len() && (#[trigger] links.drop_last()[j]).pid == before[k]
                && links.drop_last()[j].parent == parent;
        assert(links[j] == links.drop_last()[j]);
    } else {
        assert(links[links.len() - 1].parent == parent);
    }
}

/// What stays of an order that grows.
proof fn lemma_with_new(order: Seq<u32>, more: Seq<u32>)
    ensures
        order.no_duplicates() ==> with_new(order, more).no_duplicates(),
        order.len() <= with_new(order, more).len(),
        with_new(order, more).take(order.len() as int) == order,
        forall|x: u32|
            with_new(order, more).contains(x) <==> order.contains(x) || more.contains(x),
    decreases more.len(),
{
    if more.len() == 0 {
        assert(order.take(order.len() as int) == order);
    } else {
        lemma_with_new(order, more.drop_last());
        let before = with_new(order, more.drop_last());
        let after = with_new(order, more);
        let x = more.last();
        assert(after.take(order.len() as int) == before.take(order.len() as int));
        assert forall|y: u32| after.contains(y) <==> order.contains(y) || more.contains(y) by {
            if more.contains(y) {
                let i = choose|i: int| 0 <= i < more.len() && more[i] == y;
                if i < more.len() - 1 {
                    assert(more.drop_last()[i] == y);
                }
            }
            if more.drop_last().contains(y) {
                let i = choose|i: int| 0 <= i < more.drop_last().len() && more.drop_last()[i] == y;
                assert(more[i] == y);
            }
            assert(more[more.len() - 1] == x);
            if !before.contains(x) {
                assert(after == before.push(x));
                if before.contains(y) {
                    let i = choose|i: int| 0 <= i < before.len() && before[i] == y;
                    assert(after[i] == y);
                }
                if y == x {
                    assert(after[before.len() as int] == x);
                }
            }
        }
    }
}

proof fn lemma_found_after(links: Seq<ProcLink>, root: u32, n: nat)
    ensures
        found_after(links, root, n).no_duplicates(),
        found_after(links, root, n).len() >= 1,
        found_after(links, root, n)[0] == root,
        known(links, root, found_after(links, root, n)),
        found_after(links, root, n).len() <= links.len() + 1,
    decreases n,
{
    let now = found_after(links, root, n);
    if n > 0 {
        lemma_found_after(links, root, (n - 1) as nat);
        let before = found_after(links, root, (n - 1) as nat);
        if n - 1 < before.len() {
            let kids = children(links, before[n - 1]);
            lemma_with_new(before, kids);
            assert(now.take(before.len() as int)[0] == root);
            assert forall|i: int| 0 <= i < now.len() implies (#[trigger] now[i] == root
                || exists|j: int| 0 <= j < links.len() && (#[trigger] links[j]).pid == now[i]) by {
                assert(now.contains(now[i]));
                if before.contains(now[i]) {
                    let k = choose|k: int| 0 <= k < before.len() && before[k] == now[i];
                    assert(before[k] == root || exists|j: int|
                        0 <= j < links.len() && (#[trigger] links[j]).pid == before[k]);
                } else {
                    let k = choose|k: int| 0 <= k < kids.len() && kids[k] == now[i];
                    lemma_children(links, before[n - 1], k);
                }
            }
        }
    }
    lemma_known_bound(links, root, now);
}

/// Once every process that was found had its children added, no more are
/// found.
proof fn lemma_found_all(links: Seq<ProcLink>, root: u32, n: nat, m: nat)
    requires
        found_after(links, root, n).len() <= n <= m,
    ensures
        found_after(links, root, m) == found_after(links, root, n),
    decreases m,
{
    if m > n {
        lemma_found_all(links, root, n, (m - 1) as nat);
    }
}

fn walk(links: &Vec<ProcLink>, root_pid: u32) -> (order: Vec<u32>)
    ensures
        order@ == tree(links@, root_pid),
{
    broadcast use vstd::std_specs::hash::group_hash_axioms;

    let by_parent = group_by_parent(links);
    let mut order: Vec<u32> = Vec::new();
    let mut seen: HashSet<u32> = HashSet::new();
    order.push(root_pid);
    seen.insert(root_pid);
    assert(order@ == seq![root_pid]);
    assert forall|x: u32| seen@.contains(x) <==> order@.contains(x) by {
        assert(order@[0] == root_pid);
    }
    let mut i: usize = 0;
    proof {
        lemma_found_after(links@, root_pid, 0);
    }
    while i < order.len()
        invariant
            i <= order.len(),
            order.len() <= links.len() + 1,
            order@ == found_after(links@, root_pid, i as nat),
            lists_children(by_parent@, links@),
            forall|x: u32| seen@.contains(x) <==> order@.contains(x),
        decreases links.len() + 1 - i,
    {
        let pid = order[i];
        let ghost before = order@;
        let ghost kids = children(links@, pid);
        match by_parent.get(&pid) {
            Some(list) => {
                let mut k: usize = 0;
                assert(list@ == kids);
                assert(kids.take(0) == Seq::<u32>::empty());
                while k < list.len()
                    invariant
                        k <= list.len(),
                        list@ == kids,
                        order@ == with_new(before, kids.take(k as int)),
                        forall|x: u32| seen@.contains(x) <==> order@.contains(x),
                    decreases list.len() - k,
                {
                    let child = list[k];
                    let ghost was = order@;
                    assert(kids.take(k + 1).drop_last() == kids.take(k as int));
                    assert(kids.take(k + 1).last() == child);
                    if seen.insert(child) {
                        order.push(child);
                        assert forall|x: u32| seen@.contains(x) <==> order@.contains(x) by {
                            if was.contains(x) {
                                let j = choose|j: int| 0 <= j < was.len() && was[j] == x;
                                assert(order@[j] == x);
                            }
                            assert(order@[was.len() as int] == child);
                        }
                    }
                    k += 1;
                }
                assert(kids.take(k as int) == kids);
            },
            None => {
                assert(kids.len() == 0);
            },
        }
        proof {
            lemma_found_after(links@, root_pid, (i + 1) as nat);
            lemma_with_new(before, kids);
        }
        i += 1;
    }
    proof {
        lemma_found_all(links@, root_pid, i as nat, links@.len() + 1);
    }
    order
}

/// The process `root_pid` and its descendants, level by level and each once.
/// `table` holds the processes that there are; nothing where they could not
/// be listed, and then the tree is taken to be the root alone. A root that
/// does not exist has no tree.
pub fn collect_process_tree(
    root_pid: u32,
    root_exists: bool,
    table: Option<&Vec<ProcEntry>>,
) -> (pids: Vec<u32>)
    ensures
        pids@ == (if !root_exists {
            seq![]
        } else {
            match table {
                Some(entries) => tree(links_of(entries@), root_pid),
                None => seq![root_pid],
            }
        }),
{
    if !root_exists {
        return Vec::new();
    }
    match table {
        Some(entries) => {
            let links = read_links(entries);
            walk(&links, root_pid)
        },
        None => {
            let mut pids: Vec<u32> = Vec::new();
            pids.push(root_pid);
            assert(pids@ == seq![root_pid]);
            pids
        },
    }
}

// ---------------------------------------------------------------------------
// Laws
// ---------------------------------------------------------------------------

/// The process `child` has the parent `parent`.
pub open spec fn is_child(links: Seq<ProcLink>, parent: u32, child: u32) -> bool {
    links.contains(ProcLink { pid: child, parent })
}

/// `path` goes from a process to a child, from that to a child of it, and so
/// on.
pub open spec fn is_descent(links: Seq<ProcLink>, path: Seq<u32>) -> bool {
    &&& path.len() > 0
    &&& forall|i: int|
        0 <= i < path.len() - 1 ==> is_child(links, #[trigger] path[i], path[i + 1])
}

/// `pid` is `root` or a descendant of it.
pub open spec fn descends(links: Seq<ProcLink>, root: u32, pid: u32) -> bool {
    exists|path: Seq<u32>| #[trigger]
        is_descent(links, path) && path[0] == root && path.last() == pid
}

proof fn lemma_children_contain(links: Seq<ProcLink>, parent: u32, child: u32)
    ensures
        children(links, parent).contains(child) == is_child(links, parent, child),
    decreases links.len(),
{
    let link = ProcLink { pid: child, parent };
    if links.len() > 0 {
        lemma_children_contain(links.drop_last(), parent, child);
        let before = children(links.drop_last(), parent);
        let now = children(links, parent);
        if links.contains(link) {
            let j = choose|j: int| 0 <= j < links.len() && links[j] == link;
            if j < links.len() - 1 {
                assert(links.drop_last()[j] == link);
                let k = choose|k: int| 0 <= k < before.len() && before[k] == child;
                assert(now[k] == child);
            } else {
                assert(now[before.len() as int] == child);
            }
        }
        if now.contains(child) {
            let k = choose|k: int| 0 <= k < now.len() && now[k] == child;
            lemma_children(links, parent, k);
            let j = choose|j: int|
                0 <= j < links.len() && (#[trigger] links[j]).pid == child && links[j].parent
                    == parent;
            assert(links[j] == link);
        }
    }
}

proof fn lemma_descends_on(links: Seq<ProcLink>, root: u32, parent: u32, child: u32)
    requires
        descends(links, root, parent),
        is_child(links, parent, child),
    ensures
        descends(links, root, child),
{
    let path = choose|path: Seq<u32>| #[trigger]
        is_descent(links, path) && path[0] == root && path.last() == parent;
    let longer = path.push(child);
    assert forall|i: int| 0 <= i < longer.len() - 1 implies is_child(
        links,
        #[trigger] longer[i],
        longer[i + 1],
    ) by {
        if i < path.len() - 1 {
            assert(is_child(links, path[i], path[i + 1]));
        }
    }
    assert(is_descent(links, longer) && longer[0] == root && longer.last() == child);
}

proof fn lemma_found_descend(links: Seq<ProcLink>, root: u32, n: nat, pid: u32)
    requires
        found_after(links, root, n).contains(pid),
    ensures
        descends(links, root, pid),
    decreases n,
{
    if n == 0 {
        let path = seq![root];
        assert(is_descent(links, path) && path[0] == root && path.last() == pid);
    } else {
        let before = found_after(links, root, (n - 1) as nat);
        if n - 1 < before.len() {
            let kids = children(links, before[n - 1]);
            lemma_with_new(before, kids);
            if before.contains(pid) {
                lemma_found_descend(links, root, (n - 1) as nat, pid);
            } else {
                lemma_children_contain(links, before[n - 1], pid);
                lemma_found_descend(links, root, (n - 1) as nat, before[n - 1]);
                lemma_descends_on(links, root, before[n - 1], pid);
            }
        } else {
            lemma_found_descend(links, root, (n - 1) as nat, pid);
        }
    }
}

/// What was found stays found, at its place.
proof fn lemma_found_stays(links: Seq<ProcLink>, root: u32, n: nat, m: nat)
    requires
        n <= m,
    ensures
        found_after(links, root, n).len() <= found_after(links, root, m).len(),
        found_after(links, root, m).take(found_after(links, root, n).len() as int) == found_after(
            links,
            root,
            n,
        ),
    decreases m,
{
    let a = found_after(links, root, n);
    if m == n {
        assert(a.take(a.len() as int) == a);
    } else {
        lemma_found_stays(links, root, n, (m - 1) as nat);
        let b = found_after(links, root, (m - 1) as nat);
        if m - 1 < b.len() {
            lemma_with_new(b, children(links, b[m - 1]));
            let c = found_after(links, root, m);
            assert(c.take(a.len() as int) == c.take(b.len() as int).take(a.len() as int));
        }
    }
}

/// The children of every process in the tree are in the tree.
proof fn lemma_tree_closed(links: Seq<ProcLink>, root: u32, i: int, child: u32)
    requires
        0 <= i < tree(links, root).len(),
        is_child(links, tree(links, root)[i], child),
    ensures
        tree(links, root).contains(child),
{
    let all = links.len() + 1;
    let t = tree(links, root);
    lemma_found_after(links, root, all);
    lemma_found_after(links, root, i as nat);
    lemma_found_stays(links, root, i as nat, all);
    lemma_found_stays(links, root, (i + 1) as nat, all);
    let before = found_after(links, root, i as nat);
    if before.len() <= i {
        lemma_found_all(links, root, i as nat, all);
    }
    assert(before[i] == t.take(before.len() as int)[i]);
    let after = found_after(links, root, (i + 1) as nat);
    lemma_with_new(before, children(links, before[i]));
    lemma_children_contain(links, t[i], child);
    let k = choose|k: int| 0 <= k < after.len() && after[k] == child;
    assert(t.take(after.len() as int)[k] == t[k]);
}

proof fn lemma_descent_in_tree(links: Seq<ProcLink>, root: u32, path: Seq<u32>)
    requires
        is_descent(links, path),
        path[0] == root,
    ensures
        tree(links, root).contains(path.last()),
    decreases path.len(),
{
    let t = tree(links, root);
    lemma_found_after(links, root, links.len() + 1);
    if path.len() == 1 {
        assert(t[0] == root);
    } else {
        let shorter = path.drop_last();
        assert forall|i: int| 0 <= i < shorter.len() - 1 implies is_child(
            links,
            #[trigger] shorter[i],
            shorter[i + 1],
        ) by {
            assert(is_child(links, path[i], path[i + 1]));
        }
        lemma_descent_in_tree(links, root, shorter);
        let k = choose|k: int| 0 <= k < t.len() && t[k] == shorter.last();
        assert(is_child(links, path[path.len() - 2], path[path.len() - 2 + 1]));
        lemma_tree_closed(links, root, k, path.last());
    }
}

/// The tree below a process holds it first, and holds exactly it and its
/// descendants, each once.
pub proof fn tree_is_the_descendants(links: Seq<ProcLink>, root: u32)
    ensures
        tree(links, root).len() > 0,
        tree(links, root)[0] == root,
        tree(links, root).no_duplicates(),
        forall|pid: u32|
            tree(links, root).contains(pid) <==> #[trigger] descends(links, root, pid),
{
    lemma_found_after(links, root, links.len() + 1);
    assert forall|pid: u32|
        tree(links, root).contains(pid) <==> #[trigger] descends(links, root, pid) by {
        if tree(links, root).contains(pid) {
            lemma_found_descend(links, root, links.len() + 1, pid);
        }
        if descends(links, root, pid) {
            let path = choose|path: Seq<u32>| #[trigger]
                is_descent(links, path) && path[0] == root && path.last() == pid;
            lemma_descent_in_tree(links, root, path);
        }
    }
}

proof fn lemma_found_parent(links: Seq<ProcLink>, root: u32, n: nat, i: int)
    requires
        1 <= i < found_after(links, root, n).len(),
    ensures
        exists|j: int|
            0 <= j < n && j < i && is_child(
                links,
                #[trigger] found_after(links, root, n)[j],
                found_after(links, root, n)[i],
            ),
    decreases n,
{
    let now = found_after(links, root, n);
    let before = found_after(links, root, (n - 1) as nat);
    lemma_found_after(links, root, n);
    lemma_found_stays(links, root, (n - 1) as nat, n);
    assert(forall|k: int|
        0 <= k < before.len() ==> now.take(before.len() as int)[k] == #[trigger] now[k]);
    if i < before.len() {
        lemma_found_parent(links, root, (n - 1) as nat, i);
        let j = choose|j: int|
            0 <= j < n - 1 && j < i && is_child(links, #[trigger] before[j], before[i]);
        assert(now[j] == before[j] && now[i] == before[i]);
    } else {
        let kids = children(links, before[n - 1]);
        lemma_with_new(before, kids);
        assert(now.contains(now[i]));
        if before.contains(now[i]) {
            let k = choose|k: int| 0 <= k < before.len() && before[k] == now[i];
            assert(now[k] == now[i]);
        }
        lemma_children_contain(links, before[n - 1], now[i]);
        assert(now[n - 1] == before[n - 1]);
    }
}

/// One of the first `n` processes of `order` is a parent of the one at `i`.
pub open spec fn has_parent_before(
    links: Seq<ProcLink>,
    order: Seq<u32>,
    i: int,
    n: int,
) -> bool {
    exists|j: int| 0 <= j < n && is_child(links, #[trigger] order[j], order[i])
}

/// The tree goes level by level: each process but the first stands behind a
/// parent of it, and children of a process stand behind no process all of
/// whose parents stand further back than that one.
pub proof fn parents_come_first(links: Seq<ProcLink>, root: u32)
    ensures
        forall|i: int|
            1 <= i < tree(links, root).len() ==> #[trigger] has_parent_before(
                links,
                tree(links, root),
                i,
                i,
            ),
        forall|i: int, k: int, p: int|
            #![trigger tree(links, root)[i], is_child(
                links,
                tree(links, root)[p],
                tree(links, root)[k],
            )]
            1 <= i <= k < tree(links, root).len() && 0 <= p < tree(links, root).len() && is_child(
                links,
                tree(links, root)[p],
                tree(links, root)[k],
            ) ==> has_parent_before(links, tree(links, root), i, p + 1),
{
    let all = links.len() + 1;
    let t = tree(links, root);
    assert forall|i: int| 1 <= i < t.len() implies #[trigger] has_parent_before(
        links,
        t,
        i,
        i,
    ) by {
        lemma_found_parent(links, root, all, i);
    }
    assert forall|i: int, k: int, p: int|
        #![trigger t[i], is_child(links, t[p], t[k])]
        1 <= i <= k < t.len() && 0 <= p < t.len() && is_child(
            links,
            t[p],
            t[k],
        ) implies has_parent_before(links, t, i, p + 1) by {
        lemma_found_by(links, root, p, k);
        let n = (p + 1) as nat;
        let found = found_after(links, root, n);
        lemma_found_after(links, root, all);
        lemma_found_stays(links, root, n, all);
        lemma_found_parent(links, root, n, i);
        let j = choose|j: int|
            0 <= j < n && j < i && is_child(links, #[trigger] found[j], found[i]);
        assert(t.take(found.len() as int)[j] == t[j]);
        assert(t.take(found.len() as int)[i] == t[i]);
    }
}

/// A child of the process at `p` has been found once the children of that
/// process were added.
proof fn lemma_found_by(links: Seq<ProcLink>, root: u32, p: int, k: int)
    requires
        0 <= p < tree(links, root).len(),
        0 <= k < tree(links, root).len(),
        is_child(links, tree(links, root)[p], tree(links, root)[k]),
    ensures
        p < links.len() + 1,
        k < found_after(links, root, (p + 1) as nat).len(),
{
    let all = links.len() + 1;
    let t = tree(links, root);
    lemma_found_after(links, root, all);
    lemma_found_after(links, root, p as nat);
    lemma_found_stays(links, root, p as nat, all);
    lemma_found_stays(links, root, (p + 1) as nat, all);
    let before = found_after(links, root, p as nat);
    if before.len() <= p {
        lemma_found_all(links, root, p as nat, all);
    }
    assert(before[p] == t.take(before.len() as int)[p]);
    let after = found_after(links, root, (p + 1) as nat);
    lemma_with_new(before, children(links, before[p]));
    lemma_children_contain(links, t[p], t[k]);
    let m = choose|m: int| 0 <= m < after.len() && after[m] == t[k];
    assert(t.take(after.len() as int)[m] == t[m]);
}

/// The text goes on with a closing bracket and a space nowhere.
pub open spec fn names_no_end(s: Seq<char>) -> bool {
    forall|j: int| 0 <= j < s.len() - 1 ==> !(#[trigger] s[j] == ')' && s[j + 1] == ' ')
}

proof fn lemma_end_of_name(head: Seq<char>, tail: Seq<char>)
    requires
        names_no_end(tail),
    ensures
        text::rfind(head + ") "@ + tail, ") "@) == Some(head.len() as int),
        (head + ") "@ + tail).skip(head.len() as int + 2) == tail,
{
    reveal_strlit(") ");
    let mark = ") "@;
    assert(mark.len() == 2 && mark[0] == ')' && mark[1] == ' ');
    let s = head + mark + tail;
    let n = head.len() as int;
    assert(s.skip(n).take(2) == mark);
    assert(mark.is_prefix_of(s.skip(n)));
    assert forall|j: int| n < j <= s.len() implies !mark.is_prefix_of(#[trigger] s.skip(j)) by {
        if mark.is_prefix_of(s.skip(j)) {
            assert(s.skip(j).take(2)[0] == s[j] && s.skip(j).take(2)[1] == s[j + 1]);
            if j == n + 1 {
                assert(s[j] == ' ');
            } else {
                assert(s[j] == tail[j - n - 2] && s[j + 1] == tail[j - n - 2 + 1]);
            }
        }
    }
    text::the_last_place_is_found(s, mark, n);
    assert(s.skip(n + 2) == tail);
}

/// The parent is the second word behind the last closing bracket before a
/// space, whatever the name of the command is and whatever follows.
pub proof fn the_parent_is_the_second_word(
    head: Seq<char>,
    gap: Seq<char>,
    state: Seq<char>,
    gap_after: Seq<char>,
    field: Seq<char>,
    rest: Seq<char>,
)
    requires
        text::is_blank(gap),
        text::is_word(state),
        text::is_blank(gap_after) && gap_after.len() > 0,
        text::is_word(field),
        rest.len() > 0 ==> text::white_space(rest[0]),
        names_no_end(gap + state + gap_after + field + rest),
    ensures
        parent_in_stat(head + ") "@ + (gap + state + gap_after + field + rest))
            == text::u32_value(field),
        names_no_end(gap + state + gap_after) ==> parent_in_stat(
            head + ") "@ + (gap + state + gap_after),
        ) is None,
        names_no_end(head) ==> parent_in_stat(head) is None,
{
    let tail = gap + state + gap_after + field + rest;
    lemma_end_of_name(head, tail);
    let behind = gap_after + field + rest;
    assert(tail == gap + state + behind);
    assert(text::white_space(gap_after[0]));
    assert(behind[0] == gap_after[0]);
    text::words_are_runs(gap, state, behind);
    text::words_are_runs(gap_after, field, rest);
    assert(text::words(tail) == seq![state] + (seq![field] + text::words(rest)));
    let short = gap + state + gap_after;
    text::words_are_runs(gap, state, gap_after);
    text::words_are_runs(gap_after, field, rest);
    if names_no_end(short) {
        lemma_end_of_name(head, short);
        assert(text::words(short) == seq![state] + Seq::<Seq<char>>::empty());
        assert(text::words(short).len() == 1);
    }
    if names_no_end(head) {
        reveal_strlit(") ");
        let mark = ") "@;
        assert(mark.len() == 2 && mark[0] == ')' && mark[1] == ' ');
        assert forall|j: int| 0 <= j <= head.len() implies !mark.is_prefix_of(
            #[trigger] head.skip(j),
        ) by {
            if mark.is_prefix_of(head.skip(j)) {
                assert(head.skip(j).take(2)[0] == head[j] && head.skip(j).take(2)[1] == head[j + 1]);
            }
        }
        text::what_is_not_there_is_not_found(head, mark);
    }
}

/// The `stat` line of a process gives its parent back: for every number,
/// command, state and parent, and whatever other fields follow.
pub proof fn stat_gives_the_parent(
    pid: u32,
    command: Seq<char>,
    state: Seq<char>,
    parent: u32,
    rest: Seq<char>,
)
    requires
        text::is_word(state),
        !state.contains(')'),
        rest.len() > 0 ==> text::white_space(rest[0]),
        names_no_end(rest),
    ensures
        parent_in_stat(
            text::decimal(pid as nat) + " ("@ + command + ") "@ + (state + " "@ + text::decimal(
                parent as nat,
            ) + rest),
        ) == Some(parent),
{
    reveal_strlit(" ");
    assert(" "@.len() == 1 && " "@[0] == ' ');
    let head = text::decimal(pid as nat) + " ("@ + command;
    let digits = text::decimal(parent as nat);
    text::lemma_decimal(parent as nat);
    text::decimal_reads_back(parent);
    let tail = state + " "@ + digits + rest;
    let nothing = Seq::<char>::empty();
    assert(tail == nothing + state + " "@ + digits + rest);
    assert forall|j: int| 0 <= j < digits.len() implies !text::white_space(#[trigger] digits[j])
        && digits[j] != ')' by {
        assert(text::is_digit(digits[j], 10));
    }
    let n = state.len() as int;
    let m = n + 1 + digits.len();
    assert forall|j: int| 0 <= j < tail.len() - 1 implies !(#[trigger] tail[j] == ')' && tail[j + 1]
        == ' ') by {
        if j < n {
            assert(tail[j] == state[j]);
            assert(state.contains(state[j]));
        } else if j == n {
            assert(tail[j] == ' ');
        } else if j < m {
            assert(tail[j] == digits[j - n - 1]);
        } else {
            assert(tail[j] == rest[j - m] && tail[j + 1] == rest[j - m + 1]);
        }
    }
    the_parent_is_the_second_word(head, nothing, state, " "@, digits, rest);
}

/// The owner is the second word of the first line that begins with `Uid:`,
/// whatever lines stand before and behind it.
pub proof fn the_owner_is_the_second_word(
    before: Seq<Seq<char>>,
    label_end: Seq<char>,
    gap: Seq<char>,
    field: Seq<char>,
    rest: Seq<char>,
    behind: Seq<Seq<char>>,
)
    requires
        forall|i: int| 0 <= i < before.len() ==> !"Uid:"@.is_prefix_of(#[trigger] before[i]),
        forall|i: int| 0 <= i < label_end.len() ==> !text::white_space(#[trigger] label_end[i]),
        text::is_blank(gap) && gap.len() > 0,
        text::is_word(field),
        rest.len() > 0 ==> text::white_space(rest[0]),
    ensures
        uid_in_lines(before + seq!["Uid:"@ + label_end + gap + field + rest] + behind)
            == text::u32_value(field),
        uid_in_lines(before + seq!["Uid:"@ + label_end + gap] + behind) is None,
        uid_in_lines(before) is None,
    decreases before.len(),
{
    reveal_strlit("Uid:");
    let label = "Uid:"@;
    assert(label.len() == 4 && label[0] == 'U' && label[1] == 'i' && label[2] == 'd' && label[3]
        == ':');
    let line = label + label_end + gap + field + rest;
    let short = label + label_end + gap;
    let all = before + seq![line] + behind;
    let less = before + seq![short] + behind;
    if before.len() > 0 {
        assert(!label.is_prefix_of(before[0]));
        assert(all[0] == before[0] && less[0] == before[0]);
        assert(all.skip(1) == before.skip(1) + seq![line] + behind);
        assert(less.skip(1) == before.skip(1) + seq![short] + behind);
        assert forall|i: int| 0 <= i < before.skip(1).len() implies !label.is_prefix_of(
            #[trigger] before.skip(1)[i],
        ) by {
            assert(before.skip(1)[i] == before[i + 1]);
        }
        the_owner_is_the_second_word(before.skip(1), label_end, gap, field, rest, behind);
    } else {
        assert(all[0] == line && less[0] == short);
        assert(line.take(4) == label && short.take(4) == label);
        assert(label.is_prefix_of(line) && label.is_prefix_of(short));
        let first = label + label_end;
        assert forall|i: int| 0 <= i < first.len() implies !text::white_space(
            #[trigger] first[i],
        ) by {
            if i >= 4 {
                assert(first[i] == label_end[i - 4]);
            }
        }
        let nothing = Seq::<char>::empty();
        let tail = gap + field + rest;
        assert(line == nothing + first + tail);
        assert(text::white_space(gap[0]));
        assert(tail[0] == gap[0]);
        text::words_are_runs(nothing, first, tail);
        text::words_are_runs(gap, field, rest);
        assert(text::words(line) == seq![first] + (seq![field] + text::words(rest)));
        assert(short == nothing + first + gap);
        text::words_are_runs(nothing, first, gap);
        assert(text::words(short).len() == 1);
    }
}

/// The process table is read entry by entry, in order: each process whose
/// `stat` names a parent is linked to it, and no other.
pub proof fn the_table_is_read_entry_by_entry(
    a: Seq<ProcEntry>,
    b: Seq<ProcEntry>,
    entry: ProcEntry,
)
    ensures
        links_of(a + b) == links_of(a) + links_of(b),
        links_of(seq![entry]) == match parent_in_stat(entry.stat@) {
            Some(parent) => seq![ProcLink { pid: entry.pid, parent }],
            None => seq![],
        },
    decreases b.len(),
{
    assert(seq![entry].drop_last() == Seq::<ProcEntry>::empty());
    reveal_with_fuel(links_of, 2);
    assert(Seq::<ProcLink>::empty() + Seq::<ProcLink>::empty() == Seq::<ProcLink>::empty());
    if b.len() == 0 {
        assert(a + b == a);
        assert(links_of(a) + links_of(b) == links_of(a));
    } else {
        assert((a + b).drop_last() == a + b.drop_last());
        the_table_is_read_entry_by_entry(a, b.drop_last(), entry);
        assert(links_of(a + b) == links_of(a) + links_of(b));
    }
}

proof fn lemma_new_comes_from_more(order: Seq<u32>, more: Seq<u32>, i: int)
    requires
        order.no_duplicates(),
        order.len() <= i < with_new(order, more).len(),
    ensures
        more.contains(with_new(order, more)[i]),
{
    lemma_with_new(order, more);
    let all = with_new(order, more);
    assert(all.contains(all[i]));
    if order.contains(all[i]) {
        let j = choose|j: int| 0 <= j < order.len() && order[j] == all[i];
        assert(all.take(order.len() as int)[j] == all[j]);
    }
}

proof fn lemma_new_in_order(order: Seq<u32>, more: Seq<u32>, i: int, k: int, b: int)
    requires
        order.no_duplicates(),
        order.len() <= i < k < with_new(order, more).len(),
        0 <= b < more.len(),
        more[b] == with_new(order, more)[k],
    ensures
        exists|a: int| 0 <= a < b && more[a] == with_new(order, more)[i],
    decreases more.len(),
{
    let rest = more.drop_last();
    let before = with_new(order, rest);
    let all = with_new(order, more);
    lemma_with_new(order, rest);
    assert(all[i] == before[i]);
    if b < more.len() - 1 {
        assert(rest[b] == more[b]);
        if k < before.len() {
            lemma_new_in_order(order, rest, i, k, b);
            let a = choose|a: int| 0 <= a < b && rest[a] == before[i];
            assert(more[a] == all[i]);
        } else {
            assert(rest.contains(all[k]));
        }
    } else {
        lemma_new_comes_from_more(order, rest, i);
        let a = choose|a: int| 0 <= a < rest.len() && rest[a] == before[i];
        assert(more[a] == all[i]);
    }
}

proof fn lemma_children_prefix(links: Seq<ProcLink>, parent: u32, b: int)
    requires
        0 <= b <= links.len(),
    ensures
        children(links.take(b), parent).is_prefix_of(children(links, parent)),
    decreases links.len(),
{
    if b == links.len() {
        assert(links.take(b) == links);
    } else {
        lemma_children_prefix(links.drop_last(), parent, b);
        assert(links.drop_last().take(b) == links.take(b));
        let part = children(links.take(b), parent);
        let rest = children(links.drop_last(), parent);
        assert(children(links, parent).subrange(0, part.len() as int) == rest.subrange(
            0,
            part.len() as int,
        ));
    }
}

/// Children of one process are found in the order of the table: of two that
/// were found through the same process, the one that comes first is listed under
/// that process before the other is.
pub proof fn siblings_come_in_the_order_of_the_table(
    links: Seq<ProcLink>,
    root: u32,
    p: int,
    i: int,
    k: int,
    b: int,
)
    requires
        ({
            let t = tree(links, root);
            &&& 0 <= p < t.len()
            &&& 1 <= i < k < t.len()
            &&& is_child(links, t[p], t[i])
            &&& forall|q: int| 0 <= q < p ==> !is_child(links, #[trigger] t[q], t[i])
            &&& forall|q: int| 0 <= q < p ==> !is_child(links, #[trigger] t[q], t[k])
            &&& 0 <= b < links.len()
            &&& links[b] == (ProcLink { pid: t[k], parent: t[p] })
        }),
    ensures
        exists|a: int|
            0 <= a < b && links[a] == (ProcLink {
                pid: tree(links, root)[i],
                parent: tree(links, root)[p],
            }),
{
    let t = tree(links, root);
    let all = links.len() + 1;
    lemma_found_after(links, root, all);
    let n = p as nat;
    lemma_found_stays(links, root, n, all);
    lemma_found_stays(links, root, n + 1, all);
    lemma_found_after(links, root, n);
    let before = found_after(links, root, n);
    let now = found_after(links, root, n + 1);
    lemma_not_found_yet(links, root, p, i);
    lemma_not_found_yet(links, root, p, k);
    if p >= before.len() {
        lemma_found_all(links, root, n, all);
    }
    assert(t.take(before.len() as int)[p] == t[p]);
    let kids = children(links, t[p]);
    assert(now == with_new(before, kids));
    lemma_with_new(before, kids);
    assert(links.contains(links[b]));
    lemma_children_contain(links, t[p], t[k]);
    lemma_children_contain(links, t[p], t[i]);
    assert(now.contains(t[k]) && now.contains(t[i]));
    let at = choose|at: int| 0 <= at < now.len() && now[at] == t[k];
    assert(t.take(now.len() as int)[at] == t[at]);
    assert(at == k);
    assert(t.take(now.len() as int)[i] == t[i]);
    let part = links.take(b);
    let kids_before = children(part, t[p]);
    let spot = kids_before.len() as int;
    lemma_children_prefix(links, t[p], b + 1);
    assert(links.take(b + 1).drop_last() == part);
    assert(children(links.take(b + 1), t[p]) == kids_before.push(t[k]));
    let longer = children(links.take(b + 1), t[p]);
    assert(longer.is_prefix_of(kids));
    assert(longer[spot] == kids[spot]);
    lemma_new_in_order(before, kids, i, k, spot);
    let a = choose|a: int| 0 <= a < spot && kids[a] == now[i];
    assert(longer[a] == kids[a]);
    assert(kids_before[a] == t[i]);
    assert(kids_before.contains(t[i]));
    lemma_children_contain(part, t[p], t[i]);
    let c = choose|c: int|
        0 <= c < part.len() && part[c] == (ProcLink { pid: t[i], parent: t[p] });
    assert(links[c] == part[c]);
}

/// What has no parent among the first of a tree is not found through them.
proof fn lemma_not_found_yet(links: Seq<ProcLink>, root: u32, p: int, i: int)
    requires
        0 <= p < tree(links, root).len(),
        1 <= i < tree(links, root).len(),
        forall|q: int|
            0 <= q < p ==> !is_child(links, #[trigger] tree(links, root)[q], tree(links, root)[i]),
    ensures
        i >= found_after(links, root, p as nat).len(),
{
    let t = tree(links, root);
    let before = found_after(links, root, p as nat);
    lemma_found_after(links, root, links.len() + 1);
    lemma_found_stays(links, root, p as nat, links.len() + 1);
    if i < before.len() {
        lemma_found_parent(links, root, p as nat, i);
        let q = choose|j: int|
            0 <= j < p && j < i && is_child(links, #[trigger] before[j], before[i]);
        assert(t.take(before.len() as int)[q] == t[q]);
        assert(t.take(before.len() as int)[i] == t[i]);
    }
}

} // verus!
