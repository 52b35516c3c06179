use dinfo::{
    add_to_parents, checked_total, sort_found, EntryKind, get_top_files, get_top_folders, retain_visible, select_top, tally_sizes,
    DirSizeMap,
};

fn p(parts: &[&str]) -> Vec<String> {
    parts.iter().map(|s| s.to_string()).collect()
}

fn example_tree() -> Vec<(Vec<String>, u64)> {
    vec![
        (p(&["root", "a.txt"]), 100),
        (p(&["root", "sub", "b.txt"]), 200),
        (p(&["root", "sub", "c.txt"]), 50),
    ]
}

#[test]
fn example_tree_totals() {
    let files = example_tree();
    let (folders, total) = tally_sizes(&files);
    assert_eq!(total, 350);
    assert_eq!(files.len(), 3);
    assert_eq!(folders.len(), 2);
    assert_eq!(folders.get(&p(&["root", "sub"])), Some(250));
    assert_eq!(folders.get(&p(&["root"])), Some(350));
    assert_eq!(folders.get(&p(&["root", "a.txt"])), None);
}

#[test]
fn example_tree_top_two_files() {
    let files = example_tree();
    let top = get_top_files(&files, 2);
    assert_eq!(top, vec![(200, p(&["root", "sub", "b.txt"])), (100, p(&["root", "a.txt"]))]);
}

#[test]
fn example_tree_top_folders() {
    let files = example_tree();
    let (folders, _) = tally_sizes(&files);
    let top = get_top_folders(&folders, 10);
    assert_eq!(top, vec![(350, p(&["root"])), (250, p(&["root", "sub"]))]);
    assert_eq!(get_top_folders(&folders, 1), vec![(350, p(&["root"]))]);
}

#[test]
fn root_entry_equals_sum_of_all_files() {
    let files = vec![
        (p(&["r", "x"]), 7),
        (p(&["r", "d", "y"]), 11),
        (p(&["r", "d", "e", "z"]), 13),
        (p(&["r", "f", "w"]), 0),
    ];
    let (folders, total) = tally_sizes(&files);
    assert_eq!(total, 31);
    assert_eq!(folders.get(&p(&["r"])), Some(31));
}

#[test]
fn directory_entry_is_own_files_plus_subdirectories() {
    let files = vec![
        (p(&["r", "x"]), 7),
        (p(&["r", "d", "y"]), 11),
        (p(&["r", "d", "e", "z"]), 13),
        (p(&["r", "d", "q"]), 2),
        (p(&["r", "f", "w"]), 5),
    ];
    let (folders, _) = tally_sizes(&files);
    let r = folders.get(&p(&["r"])).unwrap();
    let d = folders.get(&p(&["r", "d"])).unwrap();
    let e = folders.get(&p(&["r", "d", "e"])).unwrap();
    let f = folders.get(&p(&["r", "f"])).unwrap();
    assert_eq!(r, 7 + d + f);
    assert_eq!(d, 11 + 2 + e);
    assert_eq!(e, 13);
    assert_eq!(f, 5);
}

#[test]
fn add_to_parents_stops_before_filesystem_root() {
    let mut folders = DirSizeMap::new();
    add_to_parents(&mut folders, &p(&["/", "home", "u", "f.txt"]), 40);
    add_to_parents(&mut folders, &p(&["/", "home", "g.txt"]), 2);
    assert_eq!(folders.len(), 2);
    assert_eq!(folders.get(&p(&["/", "home", "u"])), Some(40));
    assert_eq!(folders.get(&p(&["/", "home"])), Some(42));
    assert_eq!(folders.get(&p(&["/"])), None);
    assert_eq!(folders.get(&p(&["/", "home", "g.txt"])), None);
}

#[test]
fn add_to_parents_single_component_has_no_parent() {
    let mut folders = DirSizeMap::new();
    add_to_parents(&mut folders, &p(&["lonely.txt"]), 9);
    assert_eq!(folders.len(), 0);
}

#[test]
fn hidden_entries_are_excluded_or_included() {
    let files = vec![
        (p(&["root", ".secret", "file.txt"]), 5),
        (p(&["root", "visible.txt"]), 3),
    ];
    let visible = retain_visible(&files, 1);
    let (folders, total) = tally_sizes(&visible);
    assert_eq!(total, 3);
    assert_eq!(folders.get(&p(&["root", ".secret"])), None);
    let (all_folders, all_total) = tally_sizes(&files);
    assert_eq!(all_total, 8);
    assert_eq!(all_folders.get(&p(&["root", ".secret"])), Some(5));
}

#[test]
fn top_zero_is_empty() {
    let files = example_tree();
    assert!(get_top_files(&files, 0).is_empty());
    assert!(select_top(&vec![5, 1, 9], 0).is_empty());
}

#[test]
fn top_k_beyond_length_returns_all_sorted() {
    let files = example_tree();
    let top = get_top_files(&files, 10);
    assert_eq!(
        top,
        vec![
            (200, p(&["root", "sub", "b.txt"])),
            (100, p(&["root", "a.txt"])),
            (50, p(&["root", "sub", "c.txt"])),
        ]
    );
}

#[test]
fn top_k_length_order_and_cutoff() {
    let sizes: Vec<u64> = vec![4, 9, 1, 9, 7, 3, 8, 0, 7];
    let idx = select_top(&sizes, 4);
    assert_eq!(idx, vec![1, 3, 6, 4]);
    let chosen: Vec<u64> = idx.iter().map(|&i| sizes[i]).collect();
    for w in chosen.windows(2) {
        assert!(w[0] >= w[1]);
    }
    let smallest = *chosen.last().unwrap();
    for (i, s) in sizes.iter().enumerate() {
        if !idx.contains(&i) {
            assert!(*s <= smallest);
        }
    }
}

#[test]
fn top_k_equal_sizes_keep_input_order() {
    let files = vec![(p(&["b"]), 5), (p(&["a"]), 5), (p(&["c"]), 5)];
    let top = get_top_files(&files, 2);
    assert_eq!(top, vec![(5, p(&["b"])), (5, p(&["a"]))]);
}

#[test]
fn empty_input() {
    let files: Vec<(Vec<String>, u64)> = Vec::new();
    let (folders, total) = tally_sizes(&files);
    assert_eq!(total, 0);
    assert_eq!(folders.len(), 0);
    assert!(get_top_files(&files, 3).is_empty());
    assert!(get_top_folders(&folders, 3).is_empty());
}

#[test]
fn largest_sizes_do_not_overflow() {
    let files = vec![(p(&["r", "big"]), u64::MAX - 1), (p(&["r", "one"]), 1)];
    let (folders, total) = tally_sizes(&files);
    assert_eq!(total, u64::MAX);
    assert_eq!(folders.get(&p(&["r"])), Some(u64::MAX));
}

#[test]
fn top_k_agrees_with_a_full_sort() {
    let mut sizes: Vec<u64> = Vec::new();
    let mut x: u64 = 12345;
    for _ in 0..500 {
        x = x.wrapping_mul(6364136223846793005).wrapping_add(1442695040888963407);
        sizes.push((x >> 33) % 97);
    }
    let mut order: Vec<usize> = (0..sizes.len()).collect();
    order.sort_by(|&a, &b| sizes[b].cmp(&sizes[a]).then(a.cmp(&b)));
    for k in [0usize, 1, 2, 5, 10, 64, 499, 500, 501, 1000] {
        let idx = select_top(&sizes, k);
        let expected: Vec<usize> = order.iter().take(k).cloned().collect();
        assert_eq!(idx, expected);
    }
}

#[test]
fn checked_total_detects_overflow() {
    let fits = vec![(p(&["r", "a"]), u64::MAX - 5), (p(&["r", "b"]), 5)];
    assert_eq!(checked_total(&fits), Some(u64::MAX));
    let over = vec![(p(&["r", "a"]), u64::MAX - 5), (p(&["r", "b"]), 6), (p(&["r", "c"]), 0)];
    assert_eq!(checked_total(&over), None);
    assert_eq!(checked_total(&example_tree()), Some(350));
}

#[test]
fn same_names_under_different_parents_stay_apart() {
    let files = vec![
        (p(&["r", "a", "x", "f1"]), 1),
        (p(&["r", "b", "x", "f2"]), 10),
        (p(&["r", "a", "x", "f3"]), 100),
        (p(&["x", "f4"]), 1000),
        (p(&["r", "b", "f5"]), 10000),
    ];
    let (folders, total) = tally_sizes(&files);
    assert_eq!(total, 11111);
    assert_eq!(folders.len(), 6);
    assert_eq!(folders.get(&p(&["r", "a", "x"])), Some(101));
    assert_eq!(folders.get(&p(&["r", "b", "x"])), Some(10));
    assert_eq!(folders.get(&p(&["r", "a"])), Some(101));
    assert_eq!(folders.get(&p(&["r", "b"])), Some(10010));
    assert_eq!(folders.get(&p(&["r"])), Some(10111));
    assert_eq!(folders.get(&p(&["x"])), Some(1000));
    assert_eq!(folders.get(&p(&["a", "x"])), None);
    assert_eq!(folders.get(&p(&[])), None);
    assert_eq!(folders.entry_path(0), &p(&["r"]));
    assert_eq!(folders.entry_size(0), 10111);
}

#[test]
fn absolute_path_chain_leaves_out_filesystem_root() {
    let mut folders = DirSizeMap::new();
    add_to_parents(&mut folders, &p(&["/", "root", "sub", "b.txt"]), 200);
    assert_eq!(folders.len(), 2);
    assert_eq!(folders.get(&p(&["/", "root", "sub"])), Some(200));
    assert_eq!(folders.get(&p(&["/", "root"])), Some(200));
    assert_eq!(folders.get(&p(&["/"])), None);
    add_to_parents(&mut folders, &p(&["root", "x.txt"]), 7);
    assert_eq!(folders.get(&p(&["root"])), Some(7));
    assert_eq!(folders.get(&p(&["/", "root"])), Some(200));
    assert_eq!(folders.len(), 3);
    add_to_parents(&mut folders, &p(&["/", "top.txt"]), 5);
    assert_eq!(folders.len(), 3);
}

#[test]
fn top_folders_of_example_map() {
    let mut folders = DirSizeMap::new();
    add_to_parents(&mut folders, &p(&["root", "a.txt"]), 100);
    add_to_parents(&mut folders, &p(&["root", "sub", "b.txt"]), 200);
    add_to_parents(&mut folders, &p(&["root", "sub", "c.txt"]), 50);
    assert_eq!(
        get_top_folders(&folders, 2),
        vec![(350, p(&["root"])), (250, p(&["root", "sub"]))]
    );
}

#[test]
fn sort_found_counts_directories_and_keeps_files() {
    let found = vec![
        (p(&["root"]), EntryKind::Dir),
        (p(&["root", "a.txt"]), EntryKind::File(100)),
        (p(&["root", "sub"]), EntryKind::Dir),
        (p(&["root", "sub", "link"]), EntryKind::Other),
        (p(&["root", "sub", "b.txt"]), EntryKind::File(200)),
        (p(&["root", "sub", "c.txt"]), EntryKind::File(50)),
    ];
    let (files, dirs) = sort_found(&found);
    assert_eq!(dirs, 2);
    assert_eq!(files, example_tree());
    let (folders, total) = tally_sizes(&files);
    assert_eq!(total, 350);
    assert_eq!(folders.get(&p(&["root", "sub"])), Some(250));
}
