use hls_engine::cache::{
    cache_map_insert, init_hashmap, marker_dir_path, parse_cache, rebuild_entry_round_trip, Cache,
    CacheIndex, DirListing,
};
use hls_engine::keycodec::{generate_dir_name, marker_dir_name};

#[test]
fn lookup_empty_is_none() {
    let index = CacheIndex::new();
    assert!(index.lookup("/a.mp4").is_none());
}

#[test]
fn insert_then_lookup_same_entry() {
    let mut index = CacheIndex::new();
    let dir = generate_dir_name("/a.mp4");
    let marker_path = marker_dir_path(&dir, 30000);
    assert!(marker_path.starts_with(&format!("hls/{}/", dir)));
    cache_map_insert(
        &mut index,
        String::from("/a.mp4"),
        Cache {
            duration_ms: 30000,
            output_dir_name: dir.clone(),
            original_file_path: String::from("/a.mp4"),
        },
    );
    let hit = index.lookup("/a.mp4").unwrap();
    assert_eq!(hit.duration_ms, 30000);
    assert_eq!(hit.output_dir_name, dir);
    // a second insert for the same source changes nothing
    cache_map_insert(
        &mut index,
        String::from("/a.mp4"),
        Cache {
            duration_ms: 99,
            output_dir_name: dir.clone(),
            original_file_path: String::from("/a.mp4"),
        },
    );
    assert_eq!(index.lookup("/a.mp4").unwrap().duration_ms, 30000);
}

#[test]
fn parse_cache_reads_marker() {
    let name = generate_dir_name("/b.mkv");
    let children = vec![marker_dir_name(65200)];
    let c = parse_cache(&name, &children).unwrap();
    assert_eq!(c.original_file_path, "/b.mkv");
    assert_eq!(c.duration_ms, 65200);
    assert_eq!(c.output_dir_name, name);
}

#[test]
fn parse_cache_without_marker_is_zero() {
    let name = generate_dir_name("/c.avi");
    let c = parse_cache(&name, &vec![]).unwrap();
    assert_eq!(c.duration_ms, 0);
}

#[test]
fn rebuild_recovers_insertions_in_any_order() {
    let sources = ["/one.mp4", "/two.mkv", "/three dir/clip.avi"];
    let durations = [1000u64, 0, 359_999_990];
    let mut listings: Vec<DirListing> = Vec::new();
    for k in 0..3 {
        listings.push(DirListing {
            name: generate_dir_name(sources[k]),
            child_names: vec![marker_dir_name(durations[k])],
        });
    }
    let index = init_hashmap(&listings);
    for k in 0..3 {
        let c = index.lookup(sources[k]).unwrap();
        assert_eq!(c.duration_ms, durations[k]);
        assert_eq!(c.output_dir_name, generate_dir_name(sources[k]));
    }
    // reversed enumeration order yields the same entries
    listings.reverse();
    let index2 = init_hashmap(&listings);
    for k in 0..3 {
        let c = index2.lookup(sources[k]).unwrap();
        assert_eq!(c.duration_ms, durations[k]);
    }
}

#[test]
fn rebuild_tolerates_undecodable_directory() {
    let listings = vec![
        DirListing { name: String::from("### junk ###"), child_names: vec![] },
        DirListing {
            name: generate_dir_name("/keep.mp4"),
            child_names: vec![marker_dir_name(500)],
        },
    ];
    let index = init_hashmap(&listings);
    assert_eq!(index.lookup("/keep.mp4").unwrap().duration_ms, 500);
}

#[test]
fn rebuild_round_trip_single_entry() {
    let c = rebuild_entry_round_trip("/x/y z.mp4", 12345).unwrap();
    assert_eq!(c.original_file_path, "/x/y z.mp4");
    assert_eq!(c.duration_ms, 12345);
}
