//! Names and retention of index cache files, and string table keys.

use zerosyntax::cachefile::{
    cache_file_name, cache_file_version, cache_roots, parse_str_keys, prune_plan, CacheFile,
    INDEX_CACHE_MAX_AGE, INDEX_CACHE_RETAINED,
};
use zerosyntax::scan::INDEX_CACHE_VERSION;

const SECOND: u128 = 1_000_000_000;
const NOW: u128 = 4_000_000_000 * SECOND;

fn aged(name: &str, age: u128, in_use: bool) -> CacheFile {
    CacheFile {
        name: name.to_string(),
        modified: Some(NOW - age),
        in_use,
    }
}

#[test]
fn cache_file_version_accepts_only_generated_names() {
    assert_eq!(
        cache_file_version("index-v5-0123456789abcdef.json"),
        Some(5)
    );
    assert_eq!(
        cache_file_version("index-v12-0123456789abcdef.json"),
        Some(12)
    );
    for name in [
        "index-v5-0123456789abcde.json",   // hash too short
        "index-v5-0123456789abcdefg.json", // not hexadecimal
        "index-vX-0123456789abcdef.json",
        "index-v5-0123456789abcdef.json.bak",
        "notes.txt",
    ] {
        assert_eq!(cache_file_version(name), None, "{name}");
    }
}

#[test]
fn cache_file_names_carry_version_and_hash() {
    assert_eq!(cache_file_name(0xff), "index-v5-00000000000000ff.json");
    assert_eq!(
        cache_file_name(u64::MAX),
        "index-v5-ffffffffffffffff.json"
    );
    for hash in [0, 1, 0x0123_4567_89ab_cdef, u64::MAX] {
        assert_eq!(
            cache_file_version(&cache_file_name(hash)),
            Some(INDEX_CACHE_VERSION)
        );
    }
}

#[test]
fn version_numbers_fit_in_32_bits() {
    assert_eq!(
        cache_file_version("index-v4294967295-0123456789abcdef.json"),
        Some(u32::MAX)
    );
    assert_eq!(
        cache_file_version("index-v4294967296-0123456789abcdef.json"),
        None
    );
    assert_eq!(cache_file_version("index-v-0123456789abcdef.json"), None);
}

#[test]
fn names_that_are_never_written_have_no_version() {
    for name in [
        "index-v+5-0123456789abcdef.json",
        "index-v05-0123456789abcdef.json",
        "index-v00-0123456789abcdef.json",
        "index-v5-0123456789ABCDEF.json",
        "index-v-5-0123456789abcdef.json",
    ] {
        assert_eq!(cache_file_version(name), None, "{name}");
    }
    assert_eq!(cache_file_version("index-v0-0123456789abcdef.json"), Some(0));
    let stranger = aged("index-v+1-0123456789abcdef.json", 0, false);
    assert_eq!(prune_plan(&vec![stranger], NOW, false), vec![false]);
}

#[test]
fn pruning_drops_earlier_versions_and_keeps_recent_caches() {
    let mut files = vec![
        aged("notes.txt", 0, false),
        aged("index-v1-00000000000000ff.json", 0, false),
        aged(
            &format!("index-v{INDEX_CACHE_VERSION}-0000000000000000.json"),
            0,
            true,
        ),
    ];
    let others = INDEX_CACHE_RETAINED + 2;
    for index in 1..=others as u128 {
        files.push(aged(
            &format!("index-v{INDEX_CACHE_VERSION}-{index:016x}.json"),
            index * 60 * SECOND,
            false,
        ));
    }

    let plan = prune_plan(&files, NOW, true);

    assert_eq!(plan.len(), files.len());
    assert!(!plan[2], "the cache just written survives");
    assert!(!plan[0], "unrelated files are never touched");
    assert!(plan[1], "earlier cache versions are dropped");
    let surviving = plan[3..].iter().filter(|dropped| !**dropped).count();
    assert_eq!(surviving, INDEX_CACHE_RETAINED - 1, "newest others survive");
    assert!(!plan[3] && plan[files.len() - 1]);
    let pruned = plan.iter().filter(|dropped| **dropped).count();
    assert_eq!(pruned, 1 + others - surviving);
}

#[test]
fn pruning_drops_caches_unused_past_the_age_limit() {
    let files = vec![
        aged(
            &format!("index-v{INDEX_CACHE_VERSION}-000000000000000a.json"),
            0,
            false,
        ),
        aged(
            &format!("index-v{INDEX_CACHE_VERSION}-000000000000000b.json"),
            INDEX_CACHE_MAX_AGE + 60 * SECOND,
            false,
        ),
    ];

    // Nothing in use (the cache write failed) still prunes.
    assert_eq!(prune_plan(&files, NOW, false), vec![false, true]);
}

#[test]
fn failed_write_does_not_reserve_a_retention_slot_for_the_stale_file() {
    let mut files = vec![aged(
        &format!("index-v{INDEX_CACHE_VERSION}-0000000000000001.json"),
        600 * SECOND,
        false,
    )];
    for index in 2..=INDEX_CACHE_RETAINED as u128 + 1 {
        files.push(aged(
            &format!("index-v{INDEX_CACHE_VERSION}-{index:016x}.json"),
            (600 - index * 60) * SECOND,
            false,
        ));
    }

    let plan = prune_plan(&files, NOW, false);

    assert!(plan[0], "the oldest file is evicted, not reserved");
    assert!(
        plan[1..].iter().all(|dropped| !*dropped),
        "newer files are not evicted to make room for the stale one"
    );
}

#[test]
fn roots_are_hashed_in_one_order() {
    let text = |s: &str| s.to_string();
    let forward = cache_roots(&vec![text("/b"), text("/a")], &vec![text("/c")]);
    let backward = cache_roots(&vec![text("/a"), text("/b")], &vec![text("/c")]);
    assert_eq!(forward, backward);
    assert_eq!(
        forward,
        vec![text("base:/c"), text("workspace:/a"), text("workspace:/b")]
    );
    assert_ne!(
        cache_roots(&vec![text("/a")], &vec![]),
        cache_roots(&vec![], &vec![text("/a")])
    );
}

#[test]
fn string_table_keys_start_each_entry() {
    let table = "; header\nGUI:Ok\n\"Ok\"\nEND\n\nGUI:Cancel\n\"Cancel\nit\"\nEnd\nTAIL\n";
    assert_eq!(parse_str_keys(table), vec!["GUI:Ok", "GUI:Cancel", "TAIL"]);
    assert!(parse_str_keys("").is_empty());
}
