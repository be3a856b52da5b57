//! The load and unload routines: banners around the two walks.

use vstd::prelude::*;
use vstd::string::StringSliceAdditionalSpecFns;
use crate::task::{TaskTable, TreeError, same_tasks, lemma_same_find_pid, lemma_find_pid};
use crate::render::bytes_of;
use crate::walk::{ancestors, ancestor_lines, entry_lines, lines_view, walk, print_ancestors, print_descendants,
    lemma_ancestor_termination, lemma_same_ancestors, lemma_same_walk, top_line};

verus! {

pub open spec fn init_banner() -> Seq<u8> {
    "Process Family Tree Module (init)\n".spec_bytes()
}

pub open spec fn exit_banner() -> Seq<u8> {
    "Process Family Tree Module (exit)\n".spec_bytes()
}

pub open spec fn rule() -> Seq<u8> {
    "-----------------------------\n".spec_bytes()
}

pub open spec fn ancestors_start() -> Seq<u8> {
    "Print Ancestors Starts!\n".spec_bytes()
}

pub open spec fn ancestors_end() -> Seq<u8> {
    "Print Ancestors Ends!\n".spec_bytes()
}

pub open spec fn descendants_start() -> Seq<u8> {
    "Print Descendants Starts!\n".spec_bytes()
}

pub open spec fn descendants_end() -> Seq<u8> {
    "Print Descendants Ends!\n".spec_bytes()
}

/// The full log of a load that resolved the target to task `i`.
pub open spec fn family_log(t: TaskTable, i: int) -> Seq<Seq<u8>> {
    seq![init_banner(), ancestors_start(), rule()] + ancestor_lines(t, i) + seq![
        rule(),
        ancestors_end(),
        descendants_start(),
        rule(),
    ] + entry_lines(t, walk(t, i, 0, Seq::empty())) + seq![rule(), descendants_end()]
}

/// The log that loading with parameter `pid` writes: the whole family where
/// the pid resolves, else the init banner alone.
pub open spec fn load_log(t: TaskTable, pid: int) -> Seq<Seq<u8>> {
    match t.resolve_spec(pid) {
        Ok(i) => family_log(t, i),
        Err(_) => seq![init_banner()],
    }
}

/// A loaded instance; it holds no state.
pub struct ProcessFamilyTreeModule;

impl ProcessFamilyTreeModule {
    /// Loads with parameter `pid_arg`: writes the init banner, resolves the
    /// pid, then writes the ancestor section and the descendant section.
    /// Fails, after the init banner alone, where the pid does not resolve.
    pub fn init(table: &TaskTable, pid_arg: i32, log: &mut Vec<Vec<u8>>) -> (r: Result<
        ProcessFamilyTreeModule,
        TreeError,
    >)
        requires
            table.wf(),
        ensures
            lines_view(final(log)@) == lines_view(old(log)@) + load_log(*table, pid_arg as int),
            r is Ok <==> table.resolve_spec(pid_arg as int) is Ok,
            r matches Err(e) ==> table.resolve_spec(pid_arg as int) == Err::<int, TreeError>(e),
    {
        let ghost t = *table;
        let ghost log0 = lines_view(log@);
        let n = table.tasks.len();
        log.push(bytes_of("Process Family Tree Module (init)\n"));
        let task = match table.resolve(pid_arg) {
            Ok(i) => i,
            Err(e) => {
                assert(lines_view(log@) =~= log0 + load_log(t, pid_arg as int));
                return Err(e);
            },
        };
        log.push(bytes_of("Print Ancestors Starts!\n"));
        log.push(bytes_of("-----------------------------\n"));
        let mut anc = print_ancestors(table, task);
        let ghost pre = log@;
        let ghost anc0 = anc@;
        log.append(&mut anc);
        assert(lines_view(log@) =~= log0 + seq![init_banner(), ancestors_start(), rule()]
            + ancestor_lines(t, task as int)) by {
            assert(log@ == pre + anc0);
            assert(lines_view(pre) =~= log0 + seq![init_banner(), ancestors_start(), rule()]);
            assert(lines_view(pre + anc0) =~= lines_view(pre) + lines_view(anc0));
        }
        log.push(bytes_of("-----------------------------\n"));
        log.push(bytes_of("Print Ancestors Ends!\n"));
        log.push(bytes_of("Print Descendants Starts!\n"));
        log.push(bytes_of("-----------------------------\n"));
        let ghost mid = lines_view(log@);
        assert(mid =~= log0 + seq![init_banner(), ancestors_start(), rule()] + ancestor_lines(
            t,
            task as int,
        ) + seq![rule(), ancestors_end(), descendants_start(), rule()]);
        let mut bin_vec: Vec<bool> = Vec::new();
        assert(bin_vec@ =~= Seq::<bool>::empty());
        print_descendants(table, task, 0, &mut bin_vec, log);
        let ghost desc = lines_view(log@);
        log.push(bytes_of("-----------------------------\n"));
        log.push(bytes_of("Print Descendants Ends!\n"));
        assert(lines_view(log@) =~= desc + seq![rule(), descendants_end()]);
        assert(family_log(t, task as int) =~= seq![init_banner(), ancestors_start(), rule()]
            + ancestor_lines(t, task as int) + seq![rule(), ancestors_end(), descendants_start(), rule()]
            + entry_lines(t, walk(t, task as int, 0, Seq::empty())) + seq![rule(), descendants_end()]);
        assert(lines_view(log@) =~= log0 + load_log(t, pid_arg as int));
        Ok(ProcessFamilyTreeModule)
    }

    /// Unloads: writes the exit banner.
    pub fn unload(self, log: &mut Vec<Vec<u8>>)
        ensures
            lines_view(final(log)@) == lines_view(old(log)@).push(exit_banner()),
    {
        let ghost log0 = lines_view(log@);
        log.push(bytes_of("Process Family Tree Module (exit)\n"));
        assert(lines_view(log@) =~= log0.push(exit_banner()));
    }
}

/// Loading twice with the same parameter over tables that hold the same
/// tasks writes byte-identical logs.
pub proof fn lemma_load_idempotent(t1: TaskTable, t2: TaskTable, pid: int)
    requires
        t1.wf(),
        same_tasks(t1, t2),
    ensures
        load_log(t1, pid) == load_log(t2, pid),
{
    lemma_same_find_pid(t1, t2, pid, 0);
    lemma_find_pid(t1, pid, 0);
    if let Ok(i) = t1.resolve_spec(pid) {
        assert(t1.task_wf(0));
        assert(t1.tasks@[i].pid == t2.tasks@[i].pid);
        lemma_ancestor_termination(t1, i);
        lemma_same_ancestors(t1, t2, i);
        let anc = ancestors(t1, i);
        assert forall|k: int| 0 <= k < anc.len() implies top_line(t1, #[trigger] anc[k]) == top_line(
            t2,
            anc[k],
        ) by {
            assert(t1.tasks@[anc[k]].pid == t2.tasks@[anc[k]].pid);
        }
        assert(ancestor_lines(t1, i) =~= ancestor_lines(t2, i));
        lemma_same_walk(t1, t2, i, 0, Seq::empty());
    }
}

} // verus!
