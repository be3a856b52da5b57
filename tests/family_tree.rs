use process_family_tree::family_tree::ProcessFamilyTreeModule;
use process_family_tree::render::{bytes_of, print_task, push_decimal};
use process_family_tree::task::{Task, TaskTable, TreeError};
use process_family_tree::walk::{print_ancestors, print_descendants};

fn comm(name: &[u8]) -> [u8; 16] {
    let mut c = [0u8; 16];
    c[..name.len()].copy_from_slice(name);
    c
}

fn task(pid: i32, name: &[u8], parent: usize, children: Vec<usize>) -> Task {
    Task { pid, comm: comm(name), parent, children }
}

fn table(tasks: Vec<Task>) -> TaskTable {
    TaskTable::from_tasks(tasks).expect("well-formed table")
}

fn text(lines: &[Vec<u8>]) -> Vec<String> {
    lines.iter().map(|l| String::from_utf8(l.clone()).unwrap()).collect()
}

fn descendants(t: &TaskTable, i: usize) -> Vec<String> {
    let mut mask = Vec::new();
    let mut out = Vec::new();
    print_descendants(t, i, 0, &mut mask, &mut out);
    assert!(mask.is_empty());
    text(&out)
}

// root(0) -> t(5) -> {c1(6) -> g(8), c2(7)}
fn three_level() -> TaskTable {
    table(vec![
        task(0, b"swapper", 0, vec![1]),
        task(5, b"t", 0, vec![2, 3]),
        task(6, b"c1", 1, vec![4]),
        task(7, b"c2", 1, vec![]),
        task(8, b"g", 2, vec![]),
    ])
}

#[test]
fn single_task_without_children() {
    let t = table(vec![task(0, b"swapper", 0, vec![1]), task(42, b"X", 0, vec![])]);
    assert_eq!(text(&print_ancestors(&t, 1)), vec!["X(42)\n"]);
    assert_eq!(descendants(&t, 1), vec!["X(42)\n"]);
}

#[test]
fn chain_of_ancestors() {
    let t = table(vec![
        task(0, b"swapper", 0, vec![1]),
        task(10, b"a", 0, vec![2]),
        task(20, b"b", 1, vec![3]),
        task(30, b"target", 2, vec![]),
    ]);
    assert_eq!(text(&print_ancestors(&t, 3)), vec!["target(30)\n", "b(20)\n", "a(10)\n"]);
    assert_eq!(descendants(&t, 3), vec!["target(30)\n"]);
}

#[test]
fn grandchild_under_first_child() {
    let t = three_level();
    assert_eq!(
        descendants(&t, 1),
        vec!["t(5)\n", "|-- c1(6)\n", "|   |-- g(8)\n", "|-- c2(7)\n"]
    );
}

#[test]
fn grandchild_under_middle_child() {
    let t = table(vec![
        task(0, b"swapper", 0, vec![1]),
        task(5, b"t", 0, vec![2, 3, 4]),
        task(6, b"c1", 1, vec![]),
        task(7, b"c2", 1, vec![5]),
        task(9, b"c3", 1, vec![]),
        task(8, b"g", 3, vec![]),
    ]);
    assert_eq!(
        descendants(&t, 1),
        vec!["t(5)\n", "|-- c1(6)\n", "|-- c2(7)\n", "|   |-- g(8)\n", "|-- c3(9)\n"]
    );
}

#[test]
fn grandchild_under_last_child_has_no_bar() {
    let t = table(vec![
        task(0, b"swapper", 0, vec![1]),
        task(5, b"t", 0, vec![2, 3]),
        task(6, b"c1", 1, vec![]),
        task(7, b"c2", 1, vec![4]),
        task(8, b"g", 3, vec![5]),
        task(11, b"h", 4, vec![]),
    ]);
    assert_eq!(
        descendants(&t, 1),
        vec!["t(5)\n", "|-- c1(6)\n", "|-- c2(7)\n", "    |-- g(8)\n", "        |-- h(11)\n"]
    );
}

#[test]
fn full_log_of_a_load() {
    let t = three_level();
    let mut log = Vec::new();
    let r = ProcessFamilyTreeModule::init(&t, 8, &mut log);
    assert!(r.is_ok());
    assert_eq!(
        text(&log),
        vec![
            "Process Family Tree Module (init)\n",
            "Print Ancestors Starts!\n",
            "-----------------------------\n",
            "g(8)\n",
            "c1(6)\n",
            "t(5)\n",
            "-----------------------------\n",
            "Print Ancestors Ends!\n",
            "Print Descendants Starts!\n",
            "-----------------------------\n",
            "g(8)\n",
            "-----------------------------\n",
            "Print Descendants Ends!\n",
        ]
    );
    r.unwrap().unload(&mut log);
    assert_eq!(text(&log).last().unwrap(), "Process Family Tree Module (exit)\n");
}

#[test]
fn unknown_pid_fails_after_init_banner() {
    let t = three_level();
    let mut log = Vec::new();
    let r = ProcessFamilyTreeModule::init(&t, 999, &mut log);
    assert_eq!(r.err(), Some(TreeError::NotFound));
    assert_eq!(text(&log), vec!["Process Family Tree Module (init)\n"]);
}

#[test]
fn pid_not_positive_is_out_of_range() {
    let t = three_level();
    for pid in [0, -1, i32::MIN] {
        let mut log = Vec::new();
        let r = ProcessFamilyTreeModule::init(&t, pid, &mut log);
        assert_eq!(r.err(), Some(TreeError::ParameterOutOfRange));
        assert_eq!(text(&log), vec!["Process Family Tree Module (init)\n"]);
    }
}

#[test]
fn invalid_utf8_name_is_substituted() {
    let t = table(vec![
        task(0, b"swapper", 0, vec![1]),
        task(77, &[b'a', 0xff, b'b'], 0, vec![2]),
        task(78, b"kid", 1, vec![]),
    ]);
    assert_eq!(descendants(&t, 1), vec!["unable to display(77)\n", "|-- kid(78)\n"]);
    assert_eq!(text(&print_ancestors(&t, 2)), vec!["kid(78)\n", "unable to display(77)\n"]);
}

#[test]
fn multibyte_utf8_name_is_kept() {
    let t = table(vec![task(0, b"swapper", 0, vec![1]), task(3, "çé".as_bytes(), 0, vec![])]);
    assert_eq!(descendants(&t, 1), vec!["çé(3)\n"]);
}

#[test]
fn name_filling_all_sixteen_bytes() {
    let tk = Task { pid: 12, comm: *b"abcdefghijklmnop", parent: 0, children: vec![] };
    assert_eq!(tk.command_name(), b"abcdefghijklmnop".to_vec());
    let named = task(1, b"sh", 0, vec![]);
    assert_eq!(named.command_name(), b"sh".to_vec());
}

#[test]
fn prefix_examples() {
    let tk = task(1, b"n", 0, vec![]);
    let line = |indent: usize, mask: Vec<bool>| String::from_utf8(print_task(&tk, indent, &mask)).unwrap();
    assert_eq!(line(0, vec![]), "n(1)\n");
    assert_eq!(line(1, vec![]), "|-- n(1)\n");
    assert_eq!(line(2, vec![true]), "|   |-- n(1)\n");
    assert_eq!(line(2, vec![false]), "    |-- n(1)\n");
    assert_eq!(line(3, vec![true, false]), "|       |-- n(1)\n");
    assert_eq!(line(3, vec![true, true, false]), "|   |   |-- n(1)\n");
}

#[test]
fn decimal_text() {
    for (n, s) in [(0, "0"), (7, "7"), (10, "10"), (1234567, "1234567"), (-5, "-5"),
                   (i32::MAX, "2147483647"), (i32::MIN, "-2147483648")] {
        let mut out = b"x".to_vec();
        push_decimal(n, &mut out);
        assert_eq!(String::from_utf8(out).unwrap(), format!("x{}", s));
    }
}

#[test]
fn leaf_leaves_mask_unchanged() {
    let t = three_level();
    let mut mask = vec![true, false];
    let mut out = Vec::new();
    print_descendants(&t, 4, 3, &mut mask, &mut out);
    assert_eq!(mask, vec![true, false]);
    assert_eq!(text(&out), vec!["|       |-- g(8)\n"]);
}

#[test]
fn descendants_cover_the_subtree() {
    let t = three_level();
    let lines = descendants(&t, 0);
    assert_eq!(
        lines,
        vec!["swapper(0)\n", "|-- t(5)\n", "    |-- c1(6)\n", "    |   |-- g(8)\n", "    |-- c2(7)\n"]
    );
    let lines = descendants(&t, 2);
    assert_eq!(lines, vec!["c1(6)\n", "|-- g(8)\n"]);
}

#[test]
fn loading_twice_gives_identical_logs() {
    let mut first = Vec::new();
    let mut second = Vec::new();
    assert!(ProcessFamilyTreeModule::init(&three_level(), 5, &mut first).is_ok());
    assert!(ProcessFamilyTreeModule::init(&three_level(), 5, &mut second).is_ok());
    assert_eq!(first, second);
    assert_eq!(first.len(), 14);
}

#[test]
fn resolve_finds_the_task() {
    let t = three_level();
    assert_eq!(t.resolve(7), Ok(3));
    assert_eq!(t.resolve(5), Ok(1));
    assert_eq!(t.resolve(4), Err(TreeError::NotFound));
    assert_eq!(t.resolve(0), Err(TreeError::ParameterOutOfRange));
}

#[test]
fn malformed_tables_are_refused() {
    assert!(TaskTable::from_tasks(vec![]).is_none());
    // root without pid 0
    assert!(TaskTable::from_tasks(vec![task(1, b"r", 0, vec![])]).is_none());
    // root that is not its own parent
    assert!(TaskTable::from_tasks(vec![task(0, b"r", 1, vec![]), task(2, b"a", 0, vec![])]).is_none());
    // parent listed after its child
    assert!(TaskTable::from_tasks(vec![
        task(0, b"r", 0, vec![]),
        task(2, b"a", 2, vec![]),
        task(3, b"b", 0, vec![1]),
    ])
    .is_none());
    // child index out of range
    assert!(TaskTable::from_tasks(vec![task(0, b"r", 0, vec![1])]).is_none());
    // child whose parent is another task
    assert!(TaskTable::from_tasks(vec![
        task(0, b"r", 0, vec![1, 2]),
        task(2, b"a", 0, vec![]),
        task(3, b"b", 1, vec![]),
    ])
    .is_none());
    // non-root task with pid 0
    assert!(TaskTable::from_tasks(vec![task(0, b"r", 0, vec![1]), task(0, b"a", 0, vec![])]).is_none());
    assert!(TaskTable::from_tasks(vec![task(0, b"r", 0, vec![])]).is_some());
}

#[test]
fn bytes_of_text() {
    assert_eq!(bytes_of("unable to display"), b"unable to display".to_vec());
    assert_eq!(bytes_of(""), Vec::<u8>::new());
}
