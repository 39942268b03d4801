use webserver::cache::{Cache, FileBody};

fn body_for(path: &[u8]) -> Vec<u8> {
    let mut b = b"body of ".to_vec();
    b.extend_from_slice(path);
    b
}

fn request(cache: &mut Cache, path: &[u8]) -> Option<Vec<u8>> {
    let wanted = cache.cache_targets(path);
    let loaded: Vec<FileBody> =
        wanted.into_iter().map(|p| FileBody { body: body_for(&p), path: p }).collect();
    cache.cache_message(path, &loaded)
}

#[test]
fn most_requested_paths_are_cached() {
    let mut cache = Cache::new(2);
    for _ in 0..5 {
        request(&mut cache, b"/srv/files/one");
    }
    for _ in 0..3 {
        request(&mut cache, b"/srv/files/two");
    }
    let served = request(&mut cache, b"/srv/files/three");
    assert_eq!(served, None);
    assert_eq!(cache.len(), 2);
    assert_eq!(cache.lookup(b"/srv/files/one"), Some(body_for(b"/srv/files/one")));
    assert_eq!(cache.lookup(b"/srv/files/two"), Some(body_for(b"/srv/files/two")));
    assert_eq!(cache.lookup(b"/srv/files/three"), None);
    assert_eq!(cache.count(b"/srv/files/one"), 5);
    assert_eq!(cache.count(b"/srv/files/two"), 3);
    assert_eq!(cache.count(b"/srv/files/three"), 1);
    assert_eq!(cache.count(b"/srv/files/four"), 0);
}

#[test]
fn first_request_is_served_from_the_cache() {
    let mut cache = Cache::new(1);
    assert_eq!(cache.cache_targets(b"a"), vec![b"a".to_vec()]);
    let loaded = vec![FileBody { path: b"a".to_vec(), body: b"alpha".to_vec() }];
    assert_eq!(cache.cache_message(b"a", &loaded), Some(b"alpha".to_vec()));
    assert_eq!(cache.cache_targets(b"a"), Vec::<Vec<u8>>::new());
    assert_eq!(cache.cache_message(b"a", &Vec::new()), Some(b"alpha".to_vec()));
}

#[test]
fn ties_go_to_the_path_seen_first() {
    let mut cache = Cache::new(1);
    request(&mut cache, b"first");
    assert_eq!(request(&mut cache, b"second"), None);
    assert_eq!(cache.lookup(b"first"), Some(body_for(b"first")));
    assert_eq!(cache.len(), 1);
}

#[test]
fn overtaken_path_is_evicted() {
    let mut cache = Cache::new(1);
    request(&mut cache, b"first");
    request(&mut cache, b"second");
    assert_eq!(cache.cache_targets(b"second"), vec![b"second".to_vec()]);
    let loaded = vec![FileBody { path: b"second".to_vec(), body: b"2".to_vec() }];
    assert_eq!(cache.cache_message(b"second", &loaded), Some(b"2".to_vec()));
    assert_eq!(cache.lookup(b"first"), None);
    assert_eq!(cache.len(), 1);
    assert_eq!(cache.count(b"first"), 1);
}

#[test]
fn capacity_zero_caches_nothing() {
    let mut cache = Cache::new(0);
    assert_eq!(cache.capacity(), 0);
    assert_eq!(cache.cache_targets(b"a"), Vec::<Vec<u8>>::new());
    let loaded = vec![FileBody { path: b"a".to_vec(), body: b"alpha".to_vec() }];
    assert_eq!(cache.cache_message(b"a", &loaded), None);
    assert_eq!(cache.len(), 0);
    assert_eq!(cache.count(b"a"), 1);
}

#[test]
fn unread_file_stays_out() {
    let mut cache = Cache::new(2);
    assert_eq!(cache.cache_targets(b"gone"), vec![b"gone".to_vec()]);
    assert_eq!(cache.cache_message(b"gone", &Vec::new()), None);
    assert_eq!(cache.len(), 0);
    assert_eq!(cache.missing(), vec![b"gone".to_vec()]);
}

#[test]
fn unwanted_file_is_not_taken_in() {
    let mut cache = Cache::new(1);
    request(&mut cache, b"a");
    cache.record(b"b");
    let loaded = vec![FileBody { path: b"b".to_vec(), body: b"beta".to_vec() }];
    cache.refresh(&loaded);
    assert_eq!(cache.lookup(b"b"), None);
    assert_eq!(cache.lookup(b"a"), Some(body_for(b"a")));
}

#[test]
fn missing_lists_highest_first() {
    let mut cache = Cache::new(3);
    cache.record(b"x");
    cache.record(b"y");
    cache.record(b"y");
    cache.record(b"z");
    cache.record(b"z");
    cache.record(b"z");
    assert_eq!(cache.missing(), vec![b"z".to_vec(), b"y".to_vec(), b"x".to_vec()]);
}
