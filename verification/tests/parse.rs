use samply_hotspots::counts::{CountTable, MixedKey};
use samply_hotspots::parse::{
    parse_mixed_image_profile, parse_single_image_profile, walk_stack, ParseError,
};
use samply_hotspots::report::table_total;
use samply_hotspots::profile::{
    FrameTable, FuncTable, Lib, Profile, ResourceTable, Samples, StackTable, Thread,
};

fn strings(v: &[&str]) -> Vec<String> {
    v.iter().map(|x| x.to_string()).collect()
}

/// Frames 0..4 named by `names`; functions 0 and 1 belong to lib 0 (the
/// binary), function 2 to lib 1, function 3 has no resource.
fn thread(stacks: Vec<Option<usize>>, deltas: Option<Vec<u64>>) -> Thread {
    Thread {
        samples: Samples { stack: stacks, thread_cpu_delta: deltas },
        // stack 0: frame 2 (root); stack 1: frame 0, caller 0; stack 2: frame 1, caller 1;
        // stack 3: frame 3, caller 2
        stack_table: StackTable { frame: vec![2, 0, 1, 3], prefix: vec![None, Some(0), Some(1), Some(2)] },
        frame_table: FrameTable { func: vec![0, 1, 2, 3] },
        func_table: FuncTable { name: vec![0, 1, 2, 7], resource: Some(vec![Some(0), Some(0), Some(1), None]) },
        resource_table: ResourceTable { lib: vec![Some(0), Some(1)] },
        string_array: strings(&["0x10", "0x20", "libc_fn"]),
    }
}

fn profile(threads: Vec<Thread>) -> Profile {
    Profile {
        libs: vec![Lib { path: Some("/bin/app".to_string()) }, Lib { path: Some("/usr/lib/libc.dylib".to_string()) }],
        threads,
    }
}

fn get(t: &CountTable<String>, k: &str) -> u64 {
    t.get(&k.to_string())
}

#[test]
fn single_image_counts_target_frames() {
    // sample 0: stack 3 -> frames 3, 1, 0, 2 ; sample 1: stack 1 -> frames 0, 2; sample 2: none
    let p = profile(vec![thread(vec![Some(3), Some(1), None], None)]);
    let c = parse_single_image_profile(&p, "/bin/app", &vec![None, None], None, false).unwrap();
    // SELF: the first frame of the binary met from the leaf
    assert_eq!(get(&c.leaf, "0x20"), 1);
    assert_eq!(get(&c.leaf, "0x10"), 1);
    assert_eq!(c.leaf.len(), 2);
    // TOTAL: every binary frame
    assert_eq!(get(&c.all, "0x10"), 2);
    assert_eq!(get(&c.all, "0x20"), 1);
    assert_eq!(get(&c.all, "libc_fn"), 0);
    assert_eq!(c.all.len(), 2);
    assert_eq!(get(&c.addr, "0x10"), 2);
    assert_eq!(get(&c.addr, "0x20"), 1);
}

#[test]
fn single_image_matches_the_binary_by_file_name() {
    let p = profile(vec![thread(vec![Some(0)], None)]);
    // the binary is named like the second image
    let c = parse_single_image_profile(&p, "/elsewhere/libc.dylib", &vec![None, None], None, false).unwrap();
    assert_eq!(get(&c.leaf, "libc_fn"), 1);
    assert_eq!(get(&c.all, "libc_fn"), 1);
}

#[test]
fn single_image_without_resources_counts_every_frame() {
    let mut t = thread(vec![Some(3)], None);
    t.func_table.resource = None;
    let p = profile(vec![t]);
    let c = parse_single_image_profile(&p, "/nowhere", &vec![None, None], None, false).unwrap();
    assert_eq!(get(&c.leaf, "<7>"), 1);
    assert_eq!(c.all.len(), 4);
    assert_eq!(get(&c.all, "libc_fn"), 1);
}

#[test]
fn cpu_weights_apply_only_when_one_per_sample() {
    let p = profile(vec![thread(vec![Some(1), Some(1)], Some(vec![1500, 0]))]);
    let c = parse_single_image_profile(&p, "/bin/app", &vec![None, None], None, true).unwrap();
    assert_eq!(get(&c.leaf, "0x10"), 1500);
    let c = parse_single_image_profile(&p, "/bin/app", &vec![None, None], None, false).unwrap();
    assert_eq!(get(&c.leaf, "0x10"), 2);
    let p = profile(vec![thread(vec![Some(1), Some(1)], Some(vec![1500]))]);
    let c = parse_single_image_profile(&p, "/bin/app", &vec![None, None], None, true).unwrap();
    assert_eq!(get(&c.leaf, "0x10"), 2);
}

#[test]
fn bad_stack_index_is_an_error() {
    let p = profile(vec![thread(vec![Some(9)], None)]);
    assert_eq!(
        parse_single_image_profile(&p, "/bin/app", &vec![None, None], None, false).err(),
        Some(ParseError::StackIndexOutOfBounds { stack: 9 })
    );
    assert_eq!(
        parse_mixed_image_profile(&p, false).err(),
        Some(ParseError::StackIndexOutOfBounds { stack: 9 })
    );
}

#[test]
fn bad_function_index_is_an_error() {
    let mut t = thread(vec![Some(0)], None);
    t.frame_table.func[1] = 40;
    let p = profile(vec![t]);
    assert_eq!(
        parse_single_image_profile(&p, "/bin/app", &vec![None, None], None, false).err(),
        Some(ParseError::FuncNameOutOfBounds { func: 40 })
    );
}

#[test]
fn threads_without_samples_are_skipped() {
    let mut t = thread(vec![], None);
    t.frame_table.func[1] = 40;
    let p = profile(vec![t, thread(vec![Some(1)], None)]);
    let c = parse_mixed_image_profile(&p, false).unwrap();
    assert_eq!(c.leaf.len(), 1);
}

#[test]
fn cyclic_stack_is_reported() {
    let mut t = thread(vec![Some(3)], None);
    t.stack_table.prefix[0] = Some(3);
    let p = profile(vec![t]);
    assert_eq!(
        parse_single_image_profile(&p, "/bin/app", &vec![None, None], None, false).err(),
        Some(ParseError::CyclicStack { stack: 3 })
    );
    assert_eq!(walk_stack(&p.threads[0], 1, None), Err(ParseError::CyclicStack { stack: 1 }));
}

#[test]
fn walk_stack_lists_frames_leaf_first() {
    let p = profile(vec![thread(vec![Some(3)], None)]);
    assert_eq!(walk_stack(&p.threads[0], 3, None), Ok(vec![3, 1, 0, 2]));
    assert_eq!(
        walk_stack(&p.threads[0], 3, Some(2)),
        Err(ParseError::FrameKeyOutOfBounds { frame: 3, len: 2 })
    );
}

#[test]
fn mixed_counts_key_frames_by_image() {
    let p = profile(vec![thread(vec![Some(3), Some(0)], None)]);
    let c = parse_mixed_image_profile(&p, false).unwrap();
    let key = |image: Option<&str>, raw: &str| MixedKey { image: image.map(|i| i.to_string()), raw: raw.to_string() };
    assert_eq!(c.leaf.get(&key(None, "<7>")), 1);
    assert_eq!(c.leaf.get(&key(Some("/usr/lib/libc.dylib"), "libc_fn")), 1);
    assert_eq!(c.leaf.len(), 2);
    assert_eq!(c.all.get(&key(Some("/usr/lib/libc.dylib"), "libc_fn")), 2);
    assert_eq!(c.all.get(&key(Some("/bin/app"), "0x20")), 1);
    assert_eq!(c.all.get(&key(Some("/bin/app"), "0x10")), 1);
    assert_eq!(c.all.len(), 4);
}

#[test]
fn mixed_frame_outside_frame_table_is_reported() {
    let mut t = thread(vec![Some(1)], None);
    t.stack_table.frame[1] = 10;
    let p = profile(vec![t]);
    assert_eq!(
        parse_mixed_image_profile(&p, false).err(),
        Some(ParseError::FrameKeyOutOfBounds { frame: 10, len: 4 })
    );
}

#[test]
fn count_overflow_is_reported() {
    let p = profile(vec![thread(vec![Some(1), Some(1)], Some(vec![u64::MAX, 1]))]);
    assert_eq!(
        parse_single_image_profile(&p, "/bin/app", &vec![None, None], None, true).err(),
        Some(ParseError::CountOverflow)
    );
    assert_eq!(parse_mixed_image_profile(&p, true).err(), Some(ParseError::CountOverflow));
}

#[test]
fn self_counts_never_exceed_total_counts() {
    let p = profile(vec![
        thread(vec![Some(3), Some(1), Some(2), Some(0)], Some(vec![5, 7, 11, 13])),
        thread(vec![Some(2), Some(3)], None),
    ]);
    for cpu in [false, true] {
        let c = parse_single_image_profile(&p, "/bin/app", &vec![None, None], None, cpu).unwrap();
        for name in ["0x10", "0x20", "libc_fn", "<7>"] {
            assert!(get(&c.leaf, name) <= get(&c.all, name));
            assert_eq!(get(&c.addr, name), get(&c.all, name));
        }
        assert_eq!(c.addr.len(), c.all.len());
        let m = parse_mixed_image_profile(&p, cpu).unwrap();
        for i in 0..m.leaf.len() {
            let (k, n) = m.leaf.entry(i);
            assert!(n <= m.all.get(k));
        }
    }
}

#[test]
fn self_total_is_the_weight_of_counted_samples() {
    let p = profile(vec![
        thread(vec![Some(3), Some(1), Some(2), Some(0)], Some(vec![5, 7, 11, 13])),
        thread(vec![Some(2), Some(3), None], None),
    ]);
    // the sample on stack 0 has no frame of the binary and is not counted
    let c = parse_single_image_profile(&p, "/bin/app", &vec![None, None], None, true).unwrap();
    assert_eq!(table_total(&c.leaf), Some(5 + 7 + 11 + 1 + 1));
    let c = parse_single_image_profile(&p, "/bin/app", &vec![None, None], None, false).unwrap();
    assert_eq!(table_total(&c.leaf), Some(5));
    // in mixed mode every sample with a stack counts
    let m = parse_mixed_image_profile(&p, true).unwrap();
    assert_eq!(table_total(&m.leaf), Some(5 + 7 + 11 + 13 + 1 + 1));
}

#[test]
fn cpu_weighting_without_aligned_deltas_counts_rows() {
    let p = profile(vec![
        thread(vec![Some(3), Some(1), Some(0)], None),
        thread(vec![Some(3), Some(2)], Some(vec![400])),
    ]);
    let plain = parse_single_image_profile(&p, "/bin/app", &vec![None, None], None, false).unwrap();
    let cpu = parse_single_image_profile(&p, "/bin/app", &vec![None, None], None, true).unwrap();
    for name in ["0x10", "0x20", "libc_fn", "<7>"] {
        assert_eq!(get(&plain.leaf, name), get(&cpu.leaf, name));
        assert_eq!(get(&plain.all, name), get(&cpu.all, name));
    }
    assert_eq!(table_total(&cpu.leaf), Some(4));
    let plain = parse_mixed_image_profile(&p, false).unwrap();
    let cpu = parse_mixed_image_profile(&p, true).unwrap();
    assert_eq!(table_total(&plain.leaf), table_total(&cpu.leaf));
    assert_eq!(table_total(&plain.all), table_total(&cpu.all));
}
