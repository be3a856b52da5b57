//! The two traversals: up the parent chain, and down the children tree.

use vstd::prelude::*;
use crate::task::{TaskTable, same_tasks};
use crate::render::{task_line, print_task};

verus! {

/// One step of a walk: the task's index, its depth and its continuation mask.
pub type Entry = (int, nat, Seq<bool>);

/// The ancestor chain of task `i`: `i`, then its parent, and so on, ending
/// with the first task whose parent has pid 0.
pub open spec fn ancestors(t: TaskTable, i: int) -> Seq<int>
    decreases i,
{
    let p = t.parent_of(i);
    if t.pid_of(p) == 0 || !(0 <= p < i) {
        seq![i]
    } else {
        seq![i] + ancestors(t, p)
    }
}

/// The log lines of a sequence of walk entries.
pub open spec fn entry_lines(t: TaskTable, es: Seq<Entry>) -> Seq<Seq<u8>> {
    es.map_values(|e: Entry| task_line(t.tasks@[e.0], e.1, e.2))
}

/// The contents of a list of log lines.
pub open spec fn lines_view(v: Seq<Vec<u8>>) -> Seq<Seq<u8>> {
    v.map_values(|l: Vec<u8>| l@)
}

/// The line of task `i` at depth 0.
pub open spec fn top_line(t: TaskTable, i: int) -> Seq<u8> {
    task_line(t.tasks@[i], 0, Seq::empty())
}

/// The lines of the ancestor chain of task `i`.
pub open spec fn ancestor_lines(t: TaskTable, i: int) -> Seq<Seq<u8>> {
    ancestors(t, i).map_values(|j: int| top_line(t, j))
}

/// Prints the ancestor chain of `task`, one line per task at depth 0,
/// from `task` itself up to the last task below the root.
pub fn print_ancestors(table: &TaskTable, task: usize) -> (r: Vec<Vec<u8>>)
    requires
        table.wf(),
        task < table.size(),
    ensures
        lines_view(r@) == ancestor_lines(*table, task as int),
{
    let mut out: Vec<Vec<u8>> = Vec::new();
    let mut current: usize = task;
    let empty: Vec<bool> = Vec::new();
    loop
        invariant
            table.wf(),
            current < table.size(),
            empty@ == Seq::<bool>::empty(),
            lines_view(out@) + ancestor_lines(*table, current as int)
                == ancestor_lines(*table, task as int),
        decreases current,
    {
        let parent = table.tasks[current].parent;
        assert(table.task_wf(current as int));
        assert(table.task_wf(parent as int));
        let l = print_task(&table.tasks[current], 0, &empty);
        assert(l@ == top_line(*table, current as int));
        let ghost before = out@;
        out.push(l);
        assert(lines_view(out@) =~= lines_view(before).push(l@));
        let ghost rest = ancestors(*table, current as int);
        if table.tasks[parent].pid == 0 {
            assert(rest =~= seq![current as int]);
            assert(ancestor_lines(*table, current as int) =~= seq![l@]);
            return out;
        }
        assert(rest =~= seq![current as int] + ancestors(*table, parent as int));
        assert(ancestor_lines(*table, current as int) =~= seq![l@] + ancestor_lines(
            *table,
            parent as int,
        ));
        current = parent;
    }
}

/// The descendant walk of task `a` in preorder: `a` itself at depth
/// `indent` with mask `mask`, then the walks of its children in order.
pub open spec fn walk(t: TaskTable, a: int, indent: nat, mask: Seq<bool>) -> Seq<Entry>
    decreases t.size() - a, t.children_of(a).len() + 1,
{
    if !(0 <= a < t.size()) {
        Seq::empty()
    } else {
        seq![(a, indent, mask)] + walk_from(t, a, 0, indent, mask)
    }
}

/// The walks of the children of `a` from the `k`-th on, concatenated; each
/// child's mask is `mask` with one more entry, true where a sibling follows.
pub open spec fn walk_from(t: TaskTable, a: int, k: int, indent: nat, mask: Seq<bool>) -> Seq<Entry>
    decreases t.size() - a, t.children_of(a).len() - k,
{
    let n = t.children_of(a).len();
    if !(0 <= a < t.size()) || k < 0 || k >= n {
        Seq::empty()
    } else {
        let c = t.child_of(a, k);
        let sub = if a < c < t.size() {
            walk(t, c, indent + 1, mask.push(k + 1 < n))
        } else {
            Seq::empty()
        };
        sub + walk_from(t, a, k + 1, indent, mask)
    }
}

/// Lines of a concatenation are the concatenated lines.
pub proof fn lemma_entry_lines_concat(t: TaskTable, x: Seq<Entry>, y: Seq<Entry>)
    ensures
        entry_lines(t, x + y) == entry_lines(t, x) + entry_lines(t, y),
{
    assert(entry_lines(t, x + y) =~= entry_lines(t, x) + entry_lines(t, y));
}

/// Prints the subtree of `task` in preorder: its own line at depth `indent`
/// with mask `bin_vec`, then, for each child in order, the child's subtree one
/// level deeper with `bin_vec` extended by whether a sibling follows it.
/// `bin_vec` comes back as it was.
pub fn print_descendants(
    table: &TaskTable,
    task: usize,
    indent: usize,
    bin_vec: &mut Vec<bool>,
    out: &mut Vec<Vec<u8>>,
)
    requires
        table.wf(),
        task < table.size(),
        indent <= old(bin_vec)@.len() + 1,
        indent + (table.size() - task) <= usize::MAX,
    ensures
        final(bin_vec)@ == old(bin_vec)@,
        lines_view(final(out)@) == lines_view(old(out)@) + entry_lines(
            *table,
            walk(*table, task as int, indent as nat, old(bin_vec)@),
        ),
    decreases table.size() - task,
{
    let ghost t = *table;
    let ghost a = task as int;
    let ghost mask = bin_vec@;
    let ghost out0 = out@;
    assert(table.task_wf(a));
    let l = print_task(&table.tasks[task], indent, bin_vec);
    out.push(l);
    assert(lines_view(out@) =~= lines_view(out0).push(l@));
    proof {
        lemma_entry_lines_concat(t, seq![(a, indent as nat, mask)], walk_from(t, a, 0, indent as nat, mask));
        assert(entry_lines(t, seq![(a, indent as nat, mask)]) =~= seq![l@]);
    }
    let n = table.tasks[task].children.len();
    let mut k: usize = 0;
    while k < n
        invariant
            t == *table,
            table.wf(),
            a == task,
            task < table.size(),
            table.task_wf(a),
            n == t.children_of(a).len(),
            indent <= mask.len() + 1,
            indent + (table.size() - task) <= usize::MAX,
            0 <= k <= n,
            bin_vec@ == mask,
            lines_view(out@) + entry_lines(t, walk_from(t, a, k as int, indent as nat, mask))
                == lines_view(out0) + entry_lines(t, walk(t, a, indent as nat, mask)),
        decreases n - k,
    {
        let c = table.tasks[task].children[k];
        assert(c as int == t.child_of(a, k as int));
        let has_more = k + 1 < n;
        let ghost sub = walk(t, c as int, (indent + 1) as nat, mask.push(has_more));
        let ghost rest = walk_from(t, a, k + 1, indent as nat, mask);
        proof {
            assert(table.task_wf(c as int));
            assert(a < c);
            assert(walk_from(t, a, k as int, indent as nat, mask) == sub + rest);
            lemma_entry_lines_concat(t, sub, rest);
        }
        bin_vec.push(has_more);
        print_descendants(table, c, indent + 1, bin_vec, out);
        bin_vec.pop();
        assert(bin_vec@ =~= mask);
        k = k + 1;
    }
}

/// Number of parent steps from task `i` up to the root.
pub open spec fn depth(t: TaskTable, i: int) -> nat
    decreases i,
{
    let p = t.parent_of(i);
    if i <= 0 || !(0 <= p < i) {
        0
    } else {
        1 + depth(t, p)
    }
}

/// The ancestor chain of a task other than the root starts at the task,
/// follows parent links, never reaches the root, holds one task per parent
/// step up to the root, and ends with a task whose parent has pid 0.
pub proof fn lemma_ancestor_termination(t: TaskTable, i: int)
    requires
        t.wf(),
        0 < i < t.size(),
    ensures
        ancestors(t, i).len() == depth(t, i),
        ancestors(t, i)[0] == i,
        forall|k: int| 0 <= k < ancestors(t, i).len() ==> 0 < #[trigger] ancestors(t, i)[k] < t.size(),
        forall|k: int|
            0 <= k < ancestors(t, i).len() - 1 ==> #[trigger] ancestors(t, i)[k + 1] == t.parent_of(
                ancestors(t, i)[k],
            ),
        t.pid_of(t.parent_of(ancestors(t, i).last())) == 0,
    decreases i,
{
    assert(t.task_wf(i));
    let p = t.parent_of(i);
    assert(t.task_wf(p));
    if p == 0 {
        assert(ancestors(t, i) =~= seq![i]);
        assert(depth(t, p) == 0);
    } else {
        lemma_ancestor_termination(t, p);
        let rest = ancestors(t, p);
        assert(ancestors(t, i) =~= seq![i] + rest);
        assert forall|k: int| 0 <= k < ancestors(t, i).len() - 1 implies #[trigger] ancestors(t, i)[k
            + 1] == t.parent_of(ancestors(t, i)[k]) by {
            if k > 0 {
                assert(ancestors(t, i)[k + 1] == rest[k]);
                assert(ancestors(t, i)[k] == rest[k - 1]);
                assert(rest[(k - 1) + 1] == t.parent_of(rest[k - 1]));
            } else {
                assert(ancestors(t, i)[1] == rest[0]);
            }
        }
        assert forall|k: int| 0 <= k < ancestors(t, i).len() implies 0 < #[trigger] ancestors(
            t,
            i,
        )[k] < t.size() by {
            if k > 0 {
                assert(ancestors(t, i)[k] == rest[k - 1]);
            }
        }
    }
}

/// A task without children walks to its own entry alone.
pub proof fn lemma_leaf_walk(t: TaskTable, a: int, indent: nat, mask: Seq<bool>)
    requires
        t.wf(),
        0 <= a < t.size(),
        t.children_of(a).len() == 0,
    ensures
        walk(t, a, indent, mask) == seq![(a, indent, mask)],
{
    assert(walk_from(t, a, 0, indent, mask) =~= Seq::<Entry>::empty());
    assert(walk(t, a, indent, mask) =~= seq![(a, indent, mask)]);
}

/// The walks of the children of `a` from the `k`-th on, one per child, in
/// the order the table lists them.
pub open spec fn child_walks(t: TaskTable, a: int, k: int, indent: nat, mask: Seq<bool>) -> Seq<
    Seq<Entry>,
> {
    let n = t.children_of(a).len();
    Seq::new(
        (n - k) as nat,
        |j: int| walk(t, t.child_of(a, k + j), indent + 1, mask.push(k + j + 1 < n)),
    )
}

proof fn lemma_walk_from_flatten(t: TaskTable, a: int, k: int, indent: nat, mask: Seq<bool>)
    requires
        t.wf(),
        0 <= a < t.size(),
        0 <= k <= t.children_of(a).len(),
    ensures
        walk_from(t, a, k, indent, mask) == child_walks(t, a, k, indent, mask).flatten(),
    decreases t.children_of(a).len() - k,
{
    let n = t.children_of(a).len();
    let cw = child_walks(t, a, k, indent, mask);
    if k < n {
        lemma_walk_from_flatten(t, a, k + 1, indent, mask);
        assert(t.task_wf(a));
        let c = t.child_of(a, k);
        assert(t.task_wf(c));
        assert(cw.drop_first() =~= child_walks(t, a, k + 1, indent, mask));
        assert(cw.first() == walk(t, c, indent + 1, mask.push(k + 1 < n)));
    } else {
        assert(cw =~= Seq::<Seq<Entry>>::empty());
    }
}

/// The descendant walk is a preorder: the task's own entry, then the walk
/// of each child in the table's order, each one level deeper, with the
/// mask extended by whether a later sibling follows that child.
pub proof fn lemma_descendant_order(t: TaskTable, a: int, indent: nat, mask: Seq<bool>)
    requires
        t.wf(),
        0 <= a < t.size(),
    ensures
        walk(t, a, indent, mask) == seq![(a, indent, mask)] + child_walks(
            t,
            a,
            0,
            indent,
            mask,
        ).flatten(),
{
    lemma_walk_from_flatten(t, a, 0, indent, mask);
}

/// Task `b` is `a` or lies below it in the children tree.
pub open spec fn reaches(t: TaskTable, a: int, b: int) -> bool
    decreases t.size() - a,
{
    a == b || (0 <= a < t.size() && exists|k: int|
        0 <= k < t.children_of(a).len() && a < #[trigger] t.child_of(a, k) < t.size() && reaches(
            t,
            t.child_of(a, k),
            b,
        ))
}

/// Some entry of `es` is task `b`.
pub open spec fn visits(es: Seq<Entry>, b: int) -> bool {
    exists|j: int| 0 <= j < es.len() && (#[trigger] es[j]).0 == b
}

proof fn lemma_visits_concat(x: Seq<Entry>, y: Seq<Entry>, b: int)
    ensures
        visits(x + y, b) <==> visits(x, b) || visits(y, b),
{
    let z = x + y;
    if visits(z, b) {
        let j = choose|j: int| 0 <= j < z.len() && (#[trigger] z[j]).0 == b;
        if j < x.len() {
            assert(x[j] == z[j]);
        } else {
            assert(y[j - x.len()] == z[j]);
        }
    }
    if visits(x, b) {
        let j = choose|j: int| 0 <= j < x.len() && (#[trigger] x[j]).0 == b;
        assert(z[j] == x[j]);
    }
    if visits(y, b) {
        let j = choose|j: int| 0 <= j < y.len() && (#[trigger] y[j]).0 == b;
        assert(z[j + x.len()] == y[j]);
    }
}

proof fn lemma_walk_visits(t: TaskTable, a: int, indent: nat, mask: Seq<bool>, b: int)
    requires
        t.wf(),
        0 <= a < t.size(),
    ensures
        visits(walk(t, a, indent, mask), b) <==> reaches(t, a, b),
    decreases t.size() - a, t.children_of(a).len() + 1,
{
    let head = seq![(a, indent, mask)];
    let rest = walk_from(t, a, 0, indent, mask);
    lemma_visits_concat(head, rest, b);
    lemma_walk_from_visits(t, a, 0, indent, mask, b);
    assert(t.task_wf(a));
    if visits(head, b) {
        let j = choose|j: int| 0 <= j < head.len() && (#[trigger] head[j]).0 == b;
        assert(a == b);
    }
    if a == b {
        assert(head[0].0 == b);
    }
}

proof fn lemma_walk_from_visits(
    t: TaskTable,
    a: int,
    k: int,
    indent: nat,
    mask: Seq<bool>,
    b: int,
)
    requires
        t.wf(),
        0 <= a < t.size(),
        0 <= k <= t.children_of(a).len(),
    ensures
        visits(walk_from(t, a, k, indent, mask), b) <==> exists|m: int|
            k <= m < t.children_of(a).len() && a < #[trigger] t.child_of(a, m) < t.size() && reaches(
                t,
                t.child_of(a, m),
                b,
            ),
    decreases t.size() - a, t.children_of(a).len() - k,
{
    let n = t.children_of(a).len();
    assert(t.task_wf(a));
    if k < n {
        let c = t.child_of(a, k);
        assert(t.task_wf(c));
        let sub = walk(t, c, indent + 1, mask.push(k + 1 < n));
        let rest = walk_from(t, a, k + 1, indent, mask);
        lemma_visits_concat(sub, rest, b);
        lemma_walk_visits(t, c, indent + 1, mask.push(k + 1 < n), b);
        lemma_walk_from_visits(t, a, k + 1, indent, mask, b);
        if exists|m: int|
            k <= m < n && a < #[trigger] t.child_of(a, m) < t.size() && reaches(t, t.child_of(a, m), b)
        {
            let m = choose|m: int|
                k <= m < n && a < #[trigger] t.child_of(a, m) < t.size() && reaches(
                    t,
                    t.child_of(a, m),
                    b,
                );
            if m > k {
                assert(k + 1 <= m < n && a < t.child_of(a, m) < t.size());
            }
        }
    }
}

/// The tasks that the descendant walk of `a` visits are exactly `a` and
/// every task below it in the children tree.
pub proof fn lemma_descendant_completeness(t: TaskTable, a: int)
    requires
        t.wf(),
        0 <= a < t.size(),
    ensures
        forall|b: int| visits(walk(t, a, 0, Seq::empty()), b) <==> #[trigger] reaches(t, a, b),
{
    assert forall|b: int| visits(walk(t, a, 0, Seq::empty()), b) <==> #[trigger] reaches(t, a, b) by {
        lemma_walk_visits(t, a, 0, Seq::empty(), b);
    }
}

pub(crate) proof fn lemma_same_ancestors(t1: TaskTable, t2: TaskTable, i: int)
    requires
        same_tasks(t1, t2),
        0 <= i < t1.size(),
    ensures
        ancestors(t1, i) == ancestors(t2, i),
    decreases i,
{
    assert(t1.tasks@[i].parent == t2.tasks@[i].parent);
    let p = t1.parent_of(i);
    if 0 <= p < i {
        assert(t1.tasks@[p].pid == t2.tasks@[p].pid);
        lemma_same_ancestors(t1, t2, p);
    }
}

pub(crate) proof fn lemma_same_walk(t1: TaskTable, t2: TaskTable, a: int, indent: nat, mask: Seq<bool>)
    requires
        same_tasks(t1, t2),
    ensures
        walk(t1, a, indent, mask) == walk(t2, a, indent, mask),
        entry_lines(t1, walk(t1, a, indent, mask)) == entry_lines(t2, walk(t2, a, indent, mask)),
    decreases t1.size() - a, t1.children_of(a).len() + 1,
{
    if 0 <= a < t1.size() {
        let head = seq![(a, indent, mask)];
        lemma_same_walk_from(t1, t2, a, 0, indent, mask);
        let rest = walk_from(t1, a, 0, indent, mask);
        lemma_entry_lines_concat(t1, head, rest);
        lemma_entry_lines_concat(t2, head, rest);
        assert(entry_lines(t1, head) =~= entry_lines(t2, head));
    }
}

pub(crate) proof fn lemma_same_walk_from(
    t1: TaskTable,
    t2: TaskTable,
    a: int,
    k: int,
    indent: nat,
    mask: Seq<bool>,
)
    requires
        same_tasks(t1, t2),
        0 <= a < t1.size(),
    ensures
        walk_from(t1, a, k, indent, mask) == walk_from(t2, a, k, indent, mask),
        entry_lines(t1, walk_from(t1, a, k, indent, mask)) == entry_lines(
            t2,
            walk_from(t2, a, k, indent, mask),
        ),
    decreases t1.size() - a, t1.children_of(a).len() - k,
{
    assert(t1.tasks@[a].children@ == t2.tasks@[a].children@);
    let n = t1.children_of(a).len();
    if 0 <= k < n {
        let c = t1.child_of(a, k);
        let rest = walk_from(t1, a, k + 1, indent, mask);
        lemma_same_walk_from(t1, t2, a, k + 1, indent, mask);
        if a < c < t1.size() {
            let sub = walk(t1, c, indent + 1, mask.push(k + 1 < n));
            lemma_same_walk(t1, t2, c, indent + 1, mask.push(k + 1 < n));
            lemma_entry_lines_concat(t1, sub, rest);
            lemma_entry_lines_concat(t2, sub, rest);
        } else {
            assert(walk_from(t1, a, k, indent, mask) =~= rest);
            assert(walk_from(t2, a, k, indent, mask) =~= rest);
        }
    }
}

} // verus!
