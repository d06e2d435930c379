use pcstat::container::{
    candidate_paths, container_pid, parse_container_lower_dirs, parse_container_pid,
    resolve_host_path, ContainerInfo,
};
use pcstat::error::{MapError, MincoreError, ProbeError, ResolveError};
use pcstat::maps::{line_path_of, parse_maps};
use pcstat::model::{Block, PcStatus};
use pcstat::pipeline::{
    collect_stats, filter_stats, get_target_files, percent_at_most, sort_order_of, sort_stats,
    stat_in_range, FilterRange, SortOrder, FULL_RANGE,
};
use pcstat::probe::{count_resident, file_page_stat, page_count, resident_blocks};
use pcstat::procs::{parse_child_pids, parse_pid, PidFrontier};

fn stat(path: &str, pages: usize, cached: usize) -> PcStatus {
    PcStatus::new(path.as_bytes().to_vec(), pages * 4096, pages, cached, pages - cached, 0, 0, vec![])
}

fn paths(v: &[Vec<u8>]) -> Vec<String> {
    v.iter().map(|p| String::from_utf8(p.clone()).unwrap()).collect()
}

fn percent(x: i64) -> i64 {
    x * 1_000_000
}

#[test]
fn page_count_rounds_up() {
    assert_eq!(page_count(0, 4096), 0);
    assert_eq!(page_count(1, 4096), 1);
    assert_eq!(page_count(4096, 4096), 1);
    assert_eq!(page_count(4097, 4096), 2);
    assert_eq!(page_count(3 * 4096, 4096), 3);
    assert_eq!(page_count(usize::MAX, 4096), usize::MAX / 4096 + 1);
    assert_eq!(page_count(10, 3), 4);
}

#[test]
fn resident_flags_use_low_bit() {
    assert_eq!(count_resident(&vec![]), 0);
    assert_eq!(count_resident(&vec![1, 0, 3, 2, 0x81, 0xfe]), 3);
}

#[test]
fn fully_resident_three_page_file() {
    let s = file_page_stat(b"/data/a".to_vec(), 3 * 4096, 4096, &vec![1, 1, 1], 7, 9);
    assert_eq!(s.pages, 3);
    assert_eq!(s.cached, 3);
    assert_eq!(s.uncached, 0);
    assert_eq!(s.size, 3 * 4096);
    assert_eq!(s.timestamp, 7);
    assert_eq!(s.mtime, 9);
    assert_eq!(s.path, b"/data/a".to_vec());
    let hundred = FilterRange::new(percent(100), percent(100)).unwrap();
    assert!(stat_in_range(&s, &hundred));
    let below = FilterRange::new(0, percent(100) - 1).unwrap();
    assert!(!stat_in_range(&s, &below));
}

#[test]
fn partially_resident_file_counts_add_up() {
    let s = file_page_stat(b"/data/b".to_vec(), 4 * 4096 + 1, 4096, &vec![1, 0, 0, 1, 0], 0, 0);
    assert_eq!(s.pages, 5);
    assert_eq!(s.cached, 2);
    assert_eq!(s.uncached, 3);
    assert_eq!(s.cached + s.uncached, s.pages);
}

#[test]
fn empty_file_has_zero_percent() {
    let s = file_page_stat(b"/data/empty".to_vec(), 0, 4096, &vec![], 0, 0);
    assert_eq!(s.pages, 0);
    assert_eq!(s.cached, 0);
    assert_eq!(s.uncached, 0);
    let zero = FilterRange::new(0, 0).unwrap();
    assert!(stat_in_range(&s, &zero));
    let above = FilterRange::new(1, percent(100)).unwrap();
    assert!(!stat_in_range(&s, &above));
}

#[test]
fn filter_range_is_checked() {
    assert_eq!(FilterRange::new(percent(60), percent(50)), Err(ResolveError::InvalidFilterRange));
    assert_eq!(FilterRange::new(-1, percent(50)), Err(ResolveError::InvalidFilterRange));
    assert_eq!(FilterRange::new(0, percent(100) + 1), Err(ResolveError::InvalidFilterRange));
    assert_eq!(FilterRange::new(0, FULL_RANGE as i64), Ok(FilterRange { ge: 0, le: FULL_RANGE }));
    assert_eq!(FilterRange::full(), FilterRange { ge: 0, le: FULL_RANGE });
}

#[test]
fn filter_exactly_half() {
    let stats = vec![stat("/a", 2, 1), stat("/b", 4, 2), stat("/c", 3, 1), stat("/d", 4, 3), stat("/e", 0, 0)];
    let half = FilterRange::new(percent(50), percent(50)).unwrap();
    let kept = filter_stats(stats, &half);
    let names: Vec<Vec<u8>> = kept.iter().map(|s| s.path.clone()).collect();
    assert_eq!(paths(&names), vec!["/a", "/b"]);
}

#[test]
fn filter_twice_is_filter_once() {
    let make = || vec![stat("/a", 10, 1), stat("/b", 10, 5), stat("/c", 10, 9), stat("/d", 10, 7)];
    let range = FilterRange::new(percent(40), percent(80)).unwrap();
    let once = filter_stats(make(), &range);
    let once_paths: Vec<Vec<u8>> = once.iter().map(|s| s.path.clone()).collect();
    let twice = filter_stats(once, &range);
    let twice_paths: Vec<Vec<u8>> = twice.iter().map(|s| s.path.clone()).collect();
    assert_eq!(once_paths, twice_paths);
    assert_eq!(paths(&twice_paths), vec!["/b", "/d"]);
}

#[test]
fn full_range_keeps_everything() {
    let stats = vec![stat("/a", 10, 0), stat("/b", 10, 10), stat("/c", 0, 0)];
    let kept = filter_stats(stats, &FilterRange::full());
    assert_eq!(kept.len(), 3);
}

#[test]
fn sort_descending_and_ascending() {
    let make = || vec![stat("/a", 4, 1), stat("/b", 2, 2), stat("/c", 0, 0), stat("/d", 3, 2), stat("/e", 8, 2)];
    let mut desc = make();
    sort_stats(&mut desc, SortOrder::Descending);
    let d: Vec<Vec<u8>> = desc.iter().map(|s| s.path.clone()).collect();
    assert_eq!(paths(&d), vec!["/b", "/d", "/a", "/e", "/c"]);
    for w in desc.windows(2) {
        assert!(percent_at_most(&w[1], &w[0]));
    }
    let mut asc = make();
    sort_stats(&mut asc, SortOrder::Ascending);
    let a: Vec<Vec<u8>> = asc.iter().map(|s| s.path.clone()).collect();
    assert_eq!(paths(&a), vec!["/c", "/a", "/e", "/d", "/b"]);
    for w in asc.windows(2) {
        assert!(percent_at_most(&w[0], &w[1]));
    }
    let mut none = make();
    sort_stats(&mut none, SortOrder::Unsorted);
    let n: Vec<Vec<u8>> = none.iter().map(|s| s.path.clone()).collect();
    assert_eq!(paths(&n), vec!["/a", "/b", "/c", "/d", "/e"]);
}

#[test]
fn sort_order_argument() {
    assert_eq!(sort_order_of(b""), SortOrder::Unsorted);
    assert_eq!(sort_order_of(b"asc"), SortOrder::Ascending);
    assert_eq!(sort_order_of(b"desc"), SortOrder::Descending);
    assert_eq!(sort_order_of(b"ascending"), SortOrder::Descending);
}

#[test]
fn maps_lines_name_absolute_paths() {
    assert_eq!(
        line_path_of(b"7f00-7f01 r--p 00000000 08:01 1234   /usr/lib/libc.so.6"),
        Some(b"/usr/lib/libc.so.6".to_vec())
    );
    assert_eq!(line_path_of(b"7f00-7f01 rw-p 00000000 00:00 0 [heap]"), None);
    assert_eq!(line_path_of(b"7f00-7f01 rw-p 00000000 00:00 0"), None);
    assert_eq!(line_path_of(b"7f00-7f01 r--p 0 08:01 1 /a (deleted)"), None);
    assert_eq!(line_path_of(b""), None);
}

#[test]
fn maps_table_is_deduplicated() {
    let text = b"55d0-55d1 r--p 00000000 08:01 11 /usr/bin/cat\n\
55d1-55d2 r-xp 00001000 08:01 11 /usr/bin/cat\n\
55d3-55d4 rw-p 00000000 00:00 0 [heap]\n\
7f00-7f01 r--p 00000000 08:01 22 /usr/lib/libc.so.6\n\
7f02-7f03 rw-p 00000000 00:00 0\n\
7ffd-7ffe rw-p 00000000 00:00 0 [stack]\n\
7f04-7f05 r--p 00000000 08:01 11 /usr/bin/cat\n";
    assert_eq!(paths(&parse_maps(text)), vec!["/usr/bin/cat", "/usr/lib/libc.so.6"]);
    assert!(parse_maps(b"").is_empty());
    assert_eq!(paths(&parse_maps(b"a r 0 0 0 /x")), vec!["/x"]);
}

#[test]
fn pids_are_parsed() {
    assert_eq!(parse_pid(b"123"), Some(123));
    assert_eq!(parse_pid(b"+5"), Some(5));
    assert_eq!(parse_pid(b"0"), Some(0));
    assert_eq!(parse_pid(b""), None);
    assert_eq!(parse_pid(b"+"), None);
    assert_eq!(parse_pid(b"12a"), None);
    assert_eq!(parse_pid(b" 12"), None);
    assert_eq!(parse_pid(b"-3"), None);
    assert_eq!(parse_pid(usize::MAX.to_string().as_bytes()), Some(usize::MAX));
    assert_eq!(parse_pid(b"99999999999999999999999"), None);
}

#[test]
fn child_pid_listing() {
    assert_eq!(parse_child_pids(b"12\n34\n\nabc\n56"), vec![12, 34, 56]);
    assert_eq!(parse_child_pids(b"7\n"), vec![7]);
    assert!(parse_child_pids(b"").is_empty());
}

#[test]
fn frontier_expands_to_descendants() {
    let mut f = PidFrontier::new(&vec![1, 1, 2]);
    assert_eq!(f.pids(), &vec![1, 2]);
    assert_eq!(f.next_pid(), Some(1));
    f.add_children(&vec![2, 3, 3]);
    assert_eq!(f.pids(), &vec![1, 2, 3]);
    assert_eq!(f.next_pid(), Some(2));
    f.add_children(&vec![]);
    assert_eq!(f.next_pid(), Some(3));
    f.add_children(&vec![4]);
    assert_eq!(f.next_pid(), Some(4));
    f.add_children(&vec![1]);
    assert_eq!(f.next_pid(), None);
    assert_eq!(f.pids(), &vec![1, 2, 3, 4]);
}

#[test]
fn container_pid_is_checked() {
    let info = |pid| ContainerInfo { pid, lower_dir: None };
    assert_eq!(parse_container_pid(&info(None)), -1);
    assert_eq!(parse_container_pid(&info(Some(42))), 42);
    assert_eq!(container_pid(&info(Some(42))), Ok(42));
    assert_eq!(container_pid(&info(Some(0))), Err(ResolveError::ContainerPidUnavailable));
    assert_eq!(container_pid(&info(None)), Err(ResolveError::ContainerPidUnavailable));
}

#[test]
fn lower_dirs_are_split_on_colons() {
    let mut dirs = vec![b"/keep".to_vec()];
    let info = ContainerInfo { pid: Some(1), lower_dir: Some(b"/l/a/diff:/l/b/diff".to_vec()) };
    parse_container_lower_dirs(&info, &mut dirs);
    assert_eq!(paths(&dirs), vec!["/keep", "/l/a/diff", "/l/b/diff"]);
    let mut none = vec![];
    parse_container_lower_dirs(&ContainerInfo { pid: None, lower_dir: None }, &mut none);
    assert!(none.is_empty());
    let mut empty = vec![];
    parse_container_lower_dirs(&ContainerInfo { pid: None, lower_dir: Some(vec![]) }, &mut empty);
    assert_eq!(paths(&empty), vec![""]);
    let mut trailing = vec![];
    parse_container_lower_dirs(&ContainerInfo { pid: None, lower_dir: Some(b"/a:".to_vec()) }, &mut trailing);
    assert_eq!(paths(&trailing), vec!["/a", ""]);
}

#[test]
fn overlay_path_resolution() {
    let dirs = vec![b"/var/lib/docker/overlay2/abc/diff".to_vec()];
    let cands = candidate_paths(b"/etc/hosts", &dirs);
    assert_eq!(paths(&cands), vec!["/var/lib/docker/overlay2/abc/diff/etc/hosts"]);
    assert_eq!(
        resolve_host_path(b"/etc/hosts", &dirs, &vec![true]),
        b"/var/lib/docker/overlay2/abc/diff/etc/hosts".to_vec()
    );
    assert_eq!(resolve_host_path(b"/etc/hosts", &dirs, &vec![false]), b"/etc/hosts".to_vec());
    assert_eq!(resolve_host_path(b"/etc/hosts", &vec![], &vec![]), b"/etc/hosts".to_vec());
}

#[test]
fn overlay_first_match_wins() {
    let dirs = vec![b"/l1".to_vec(), b"/l2".to_vec(), b"/l3".to_vec()];
    assert_eq!(resolve_host_path(b"/f", &dirs, &vec![false, true, true]), b"/l2/f".to_vec());
    assert_eq!(resolve_host_path(b"/f", &dirs, &vec![true, true, true]), b"/l1/f".to_vec());
}

#[test]
fn path_given_and_found_is_measured_once() {
    let files = vec![b"/data/x".to_vec(), b"/data/y".to_vec(), b"/data/x".to_vec()];
    let found = vec![
        Some(vec![b"/usr/lib/z".to_vec(), b"/data/x".to_vec()]),
        Some(vec![b"/data/y".to_vec(), b"/usr/lib/w".to_vec()]),
    ];
    let r = get_target_files(&vec![10, 11], &found, &files).unwrap();
    assert_eq!(paths(&r), vec!["/data/x", "/data/y", "/usr/lib/z", "/usr/lib/w"]);
}

#[test]
fn missing_process_is_fatal() {
    let found = vec![Some(vec![b"/a".to_vec()]), None, None];
    assert_eq!(
        get_target_files(&vec![1, 99999999, 5], &found, &vec![]),
        Err(ResolveError::ProcessNotFound(99999999))
    );
}

#[test]
fn failed_probes_are_skipped() {
    let results = vec![
        Ok(stat("/a", 1, 1)),
        Err(ProbeError::FileAccess),
        Ok(stat("/b", 2, 0)),
        Err(ProbeError::Mapping(MapError::new())),
        Err(ProbeError::Mincore(MincoreError::new())),
    ];
    let kept = collect_stats(results);
    let names: Vec<Vec<u8>> = kept.iter().map(|s| s.path.clone()).collect();
    assert_eq!(paths(&names), vec!["/a", "/b"]);
}

#[test]
fn error_messages() {
    assert_eq!(MapError::new().message(), "mmap error");
    assert_eq!(MincoreError::new().message(), "mincore error");
}

#[test]
fn block_holds_its_bounds() {
    let b = Block::new(3, 8);
    assert_eq!(b.begin, 3);
    assert_eq!(b.end, 8);
}

#[test]
fn resident_runs_are_maximal() {
    let blocks = resident_blocks(&vec![1, 1, 0, 3, 0, 0, 1, 1, 1]);
    assert_eq!(blocks, vec![Block::new(0, 2), Block::new(3, 4), Block::new(6, 9)]);
    assert!(resident_blocks(&vec![0, 2, 0]).is_empty());
    let s = file_page_stat(b"/f".to_vec(), 3 * 4096, 4096, &vec![1, 0, 1], 0, 0);
    assert_eq!(s.cached_index, vec![Block::new(0, 1), Block::new(2, 3)]);
}
