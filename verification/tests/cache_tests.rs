use ctab_web::cache::{stats, CacheFile, Eviction, EvictionStep};

#[test]
fn evicts_old_files_without_deleting_the_protected_write() {
    let files = vec![
        CacheFile {
            bytes: 8,
            modified: 100,
            protected: false,
        },
        CacheFile {
            bytes: 8,
            modified: 200,
            protected: true,
        },
    ];
    let (mut eviction, order) = Eviction::start(&files, 8).expect("over the limit");
    assert_eq!(order, vec![0, 1]);
    let mut kept = Vec::new();
    for index in order {
        match eviction.next(&files[index]) {
            EvictionStep::Stop => {
                kept.push(index);
            }
            EvictionStep::Skip => kept.push(index),
            EvictionStep::Remove => eviction.removed(files[index].bytes),
        }
    }
    assert_eq!(kept, vec![1]);
    assert_eq!(eviction.total, 8);
    let remaining: Vec<u64> = kept.iter().map(|&index| files[index].bytes).collect();
    assert_eq!(stats(&remaining).bytes, 8);
}

#[test]
fn the_protected_file_is_kept_even_when_it_is_the_oldest() {
    let files = vec![
        CacheFile {
            bytes: 10,
            modified: 1,
            protected: true,
        },
        CacheFile {
            bytes: 10,
            modified: 3,
            protected: false,
        },
        CacheFile {
            bytes: 10,
            modified: 2,
            protected: false,
        },
    ];
    let (eviction, order) = Eviction::start(&files, 15).expect("over the limit");
    assert_eq!(order, vec![0, 2, 1]);
    assert_eq!(eviction.next(&files[0]), EvictionStep::Skip);
    assert_eq!(eviction.next(&files[2]), EvictionStep::Remove);
}

#[test]
fn nothing_is_evicted_within_the_limit_or_without_one() {
    let files = vec![CacheFile {
        bytes: 8,
        modified: 0,
        protected: false,
    }];
    assert!(Eviction::start(&files, 8).is_none());
    assert!(Eviction::start(&files, 0).is_none());
}

#[test]
fn cache_sizes_saturate() {
    let summary = stats(&vec![u64::MAX, 1, 2]);
    assert_eq!(summary.bytes, u64::MAX);
    assert_eq!(summary.files, 3);
    assert_eq!(stats(&Vec::new()).bytes, 0);
}

#[test]
fn many_files_are_ordered_oldest_first_and_stably() {
    let files: Vec<CacheFile> = (0..2_000_i128)
        .map(|index| CacheFile {
            bytes: 1,
            modified: (index * 7_919) % 97,
            protected: false,
        })
        .collect();
    let (_, order) = Eviction::start(&files, 1).expect("over the limit");
    assert_eq!(order.len(), files.len());
    let mut seen = vec![false; files.len()];
    for &index in &order {
        assert!(!seen[index]);
        seen[index] = true;
    }
    for pair in order.windows(2) {
        let (a, b) = (pair[0], pair[1]);
        assert!(
            files[a].modified < files[b].modified
                || (files[a].modified == files[b].modified && a < b)
        );
    }
}

#[test]
fn cache_entries_are_first_written_to_hidden_temporary_files() {
    assert_eq!(
        ctab_web::cache::temporary_file_name("metadata.json", "00ff10aa20bb30cc"),
        ".metadata.json.00ff10aa20bb30cc.tmp"
    );
}
