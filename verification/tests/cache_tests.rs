use gitdis::cache::{Cache, Error, Event, Quickleaf};
use gitdis::list_props::{Filter, ListProps, Order, StartAfter};

#[test]
fn test_cache_insert() {
    let mut cache = Cache::new(2);
    cache.insert_str("key1", 1);
    cache.insert_str("key2", 2);
    cache.insert_str("key3", 3);
    assert_eq!(cache.get("key1"), None);
    assert_eq!(cache.get("key2"), Some(&2));
    assert_eq!(cache.get("key3"), Some(&3));
}

#[test]
fn test_cache_remove() {
    let mut cache = Cache::new(2);
    cache.insert_str("key1", 1);
    cache.insert_str("key2", 2);
    let _ = cache.remove("key1");
    assert_eq!(cache.get("key1"), None);
    cache.insert_str("key3", 3);
    assert_eq!(cache.get("key3"), Some(&3));
    assert_eq!(cache.get("key2"), Some(&2));
}

#[test]
fn test_cache_clear() {
    let mut cache = Cache::new(2);
    cache.insert_str("key1", 1);
    cache.insert_str("key2", 2);
    cache.clear();
    assert_eq!(cache.len(), 0);
}

#[test]
fn test_cache_list_asc() {
    let mut cache = Cache::new(5);
    cache.insert_str("key2", 2);
    cache.insert_str("key1", 1);
    cache.insert_str("key5", 5);
    cache.insert_str("key4", 4);
    cache.insert_str("key3", 3);

    let result_res = cache.list(StartAfter::Key("key2"));

    assert_eq!(result_res.is_ok(), true);

    let result = match result_res {
        Ok(result) => result,
        Err(_) => panic!("Error"),
    };

    assert_eq!(result.len(), 3);
    assert_eq!(result[0], ("key3".to_string(), &3));
    assert_eq!(result[1], ("key4".to_string(), &4));
    assert_eq!(result[2], ("key5".to_string(), &5));
}

#[test]
fn test_cache_list_desc() {
    let mut cache = Cache::new(5);
    cache.insert_str("key5", 5);
    cache.insert_str("key1", 1);
    cache.insert_str("key3", 3);
    cache.insert_str("key4", 4);
    cache.insert_str("key2", 2);

    let result_res = cache.list(ListProps {
        order: Order::Desc,
        filter: Filter::All,
        start_after_key: StartAfter::Key("key3"),
        limit: 10,
    });

    assert_eq!(result_res.is_ok(), true);

    let result = match result_res {
        Ok(result) => result,
        Err(_) => panic!("Error"),
    };

    assert_eq!(result.len(), 2);
    assert_eq!(result[0], ("key2".to_string(), &2));
    assert_eq!(result[1], ("key1".to_string(), &1));
}

fn words() -> Cache<i32> {
    let mut cache = Cache::new(10);
    cache.insert_str("postmodern", 8);
    cache.insert_str("postpone", 6);
    cache.insert_str("precept", 2);
    cache.insert_str("postmortem", 9);
    cache.insert_str("precaution", 3);
    cache.insert_str("precede", 1);
    cache.insert_str("precognition", 5);
    cache.insert_str("postmark", 10);
    cache.insert_str("postgraduate", 7);
    cache.insert_str("preconceive", 4);
    cache
}

#[test]
fn test_filter_start_with() {
    let cache = words();

    let result_res = cache.list(Filter::StartWith("postm"));

    assert_eq!(result_res.is_ok(), true);

    let result = match result_res {
        Ok(result) => result,
        Err(_) => panic!("Error"),
    };

    assert_eq!(result.len(), 3);
    assert_eq!(result[0], ("postmark".to_string(), &10));
    assert_eq!(result[1], ("postmodern".to_string(), &8));
    assert_eq!(result[2], ("postmortem".to_string(), &9));
}

#[test]
fn test_filter_ends_with() {
    let cache = words();

    let result_res = cache.list(Filter::EndWith("tion"));

    assert_eq!(result_res.is_ok(), true);

    let result = match result_res {
        Ok(result) => result,
        Err(_) => panic!("Error"),
    };

    assert_eq!(result.len(), 2);
    assert_eq!(result[0], ("precaution".to_string(), &3));
    assert_eq!(result[1], ("precognition".to_string(), &5));
}

#[test]
fn filter_start_and_end_with() {
    let cache = words();
    let result = cache.list(Filter::StartAndEndWith("pre", "e")).unwrap();
    assert_eq!(result.len(), 2);
    assert_eq!(result[0], ("precede".to_string(), &1));
    assert_eq!(result[1], ("preconceive".to_string(), &4));
}

#[test]
fn sorted_listing() {
    let mut cache = Cache::new(5);
    cache.insert("b".to_string(), 2);
    cache.insert("a".to_string(), 1);
    cache.insert("c".to_string(), 3);
    let props = ListProps::new().order(Order::Asc).limit(10);
    let result = cache.list(props).unwrap();
    assert_eq!(
        result,
        vec![("a".to_string(), &1), ("b".to_string(), &2), ("c".to_string(), &3)]
    );
}

#[test]
fn capacity_eviction() {
    let mut cache = Cache::new(2);
    cache.insert("a".to_string(), 1);
    cache.insert("b".to_string(), 2);
    cache.insert("c".to_string(), 3);
    assert_eq!(cache.len(), 2);
    assert!(cache.contains_key("b"));
    assert!(cache.contains_key("c"));
    assert_eq!(cache.get("a"), None);
}

#[test]
fn eviction_takes_the_smallest_key() {
    let mut cache = Cache::new(3);
    cache.insert("m".to_string(), 1);
    cache.insert("z".to_string(), 2);
    cache.insert("c".to_string(), 3);
    cache.insert("k".to_string(), 4);
    let keys: Vec<String> = cache
        .list(ListProps::new())
        .unwrap()
        .into_iter()
        .map(|(k, _)| k)
        .collect();
    assert_eq!(keys, vec!["k".to_string(), "m".to_string(), "z".to_string()]);
}

#[test]
fn capacity_one_keeps_the_later_larger_key() {
    let mut cache = Cache::new(1);
    cache.insert("a".to_string(), 1);
    cache.insert("b".to_string(), 2);
    assert_eq!(cache.len(), 1);
    assert_eq!(cache.get("b"), Some(&2));
    assert_eq!(cache.get("a"), None);
}

#[test]
fn capacity_one_keeps_the_key_inserted_last() {
    let mut cache = Cache::new(1);
    cache.insert("b".to_string(), 2);
    cache.insert("a".to_string(), 1);
    assert_eq!(cache.len(), 1);
    assert_eq!(cache.get("a"), Some(&1));
    assert_eq!(cache.get("b"), None);
}

#[test]
fn update_of_a_present_key_neither_evicts_nor_duplicates() {
    let mut cache = Cache::new(2);
    cache.insert("a".to_string(), 1);
    cache.insert("b".to_string(), 2);
    cache.insert("a".to_string(), 10);
    assert_eq!(cache.len(), 2);
    assert_eq!(cache.get("a"), Some(&10));
    assert_eq!(cache.get("b"), Some(&2));
    let result = cache.list(ListProps::new()).unwrap();
    assert_eq!(result, vec![("a".to_string(), &10), ("b".to_string(), &2)]);
}

#[test]
fn insert_twice_is_insert_once() {
    let mut once = Cache::with_events(4);
    once.insert("k".to_string(), 7);
    let mut twice = Cache::with_events(4);
    twice.insert("k".to_string(), 7);
    twice.insert("k".to_string(), 7);
    assert_eq!(once, twice);
    assert_eq!(
        twice.take_events(),
        vec![Event::Insert { key: "k".to_string(), value: 7 }]
    );
}

#[test]
fn keys_stay_strictly_ascending() {
    let mut cache = Cache::new(8);
    for key in ["d", "a", "c", "b", "a", "e", "c"] {
        cache.insert(key.to_string(), 0);
    }
    let _ = cache.remove("c");
    let keys: Vec<String> = cache
        .list(ListProps::new())
        .unwrap()
        .into_iter()
        .map(|(k, _)| k)
        .collect();
    assert_eq!(keys, vec!["a", "b", "d", "e"]);
    assert_eq!(cache.len(), keys.len());
}

#[test]
fn start_after_last_key_is_empty() {
    let mut cache = Cache::new(5);
    cache.insert_str("a", 1);
    cache.insert_str("b", 2);
    let result = cache.list(StartAfter::Key("b")).unwrap();
    assert!(result.is_empty());
}

#[test]
fn start_after_first_key_descending_is_empty() {
    let mut cache = Cache::new(5);
    cache.insert_str("a", 1);
    cache.insert_str("b", 2);
    let props = ListProps::new().start_after_key("a").order(Order::Desc);
    assert!(cache.list(props).unwrap().is_empty());
}

#[test]
fn limit_zero_is_empty() {
    let mut cache = Cache::new(5);
    cache.insert_str("a", 1);
    cache.insert_str("b", 2);
    let result = cache.list(ListProps::new().limit(0)).unwrap();
    assert!(result.is_empty());
    let result = cache.list(ListProps::default()).unwrap();
    assert!(result.is_empty());
}

#[test]
fn limit_cuts_the_listing() {
    let cache = words();
    let result = cache.list(ListProps::new().limit(2)).unwrap();
    assert_eq!(result.len(), 2);
    assert_eq!(result[0], ("postgraduate".to_string(), &7));
    assert_eq!(result[1], ("postmark".to_string(), &10));
    let result = cache
        .list(ListProps::new().filter(Filter::StartWith("pre")).limit(1))
        .unwrap();
    assert_eq!(result, vec![("precaution".to_string(), &3)]);
}

#[test]
fn unknown_cursor_is_an_error() {
    let mut cache = Cache::new(5);
    cache.insert_str("a", 1);
    assert_eq!(cache.list(StartAfter::Key("zz")), Err(Error::SortKeyNotFound));
    let props = ListProps::new().start_after_key("zz").limit(0);
    assert_eq!(cache.list(props), Err(Error::SortKeyNotFound));
}

#[test]
fn remove_of_an_absent_key_is_an_error() {
    let mut cache: Cache<i32> = Cache::new(5);
    assert_eq!(cache.remove("a"), Err(Error::KeyNotFound));
}

#[test]
fn insert_if_not_exists_refuses_a_present_key() {
    let mut cache = Cache::new(5);
    assert_eq!(cache.insert_if_not_exists("a".to_string(), 1), Ok(()));
    assert_eq!(
        cache.insert_if_not_exists("a".to_string(), 2),
        Err(Error::SortKeyExists)
    );
    assert_eq!(cache.get("a"), Some(&1));
}

#[test]
fn get_mut_changes_the_value_in_place() {
    let mut cache = Cache::new(5);
    cache.insert_str("a", 1);
    cache.insert_str("b", 2);
    if let Some(v) = cache.get_mut("a") {
        *v = 11;
    }
    assert_eq!(cache.get("a"), Some(&11));
    assert_eq!(cache.get_mut("zz"), None);
    assert_eq!(cache.len(), 2);
}

#[test]
fn set_capacity_does_not_evict() {
    let mut cache = Cache::new(3);
    cache.insert_str("a", 1);
    cache.insert_str("b", 2);
    cache.insert_str("c", 3);
    cache.set_capacity(1);
    assert_eq!(cache.capacity(), 1);
    assert_eq!(cache.len(), 3);
    cache.insert_str("d", 4);
    assert_eq!(cache.len(), 3);
    assert_eq!(cache.get("a"), None);
    assert_eq!(cache.get("d"), Some(&4));
}

#[test]
fn events_follow_the_changes() {
    let mut cache = Cache::with_events(2);
    cache.insert_str("a", 1);
    cache.insert_str("a", 1);
    cache.insert_str("a", 2);
    let _ = cache.remove("a");
    let _ = cache.remove("a");
    cache.clear();
    assert_eq!(
        cache.take_events(),
        vec![
            Event::Insert { key: "a".to_string(), value: 1 },
            Event::Insert { key: "a".to_string(), value: 2 },
            Event::Remove { key: "a".to_string() },
            Event::Clear,
        ]
    );
    assert!(cache.take_events().is_empty());
}

#[test]
fn a_cache_without_a_log_records_nothing() {
    let mut cache = Cache::new(2);
    cache.insert_str("a", 1);
    assert!(cache.take_events().is_empty());
    assert!(!cache.is_empty());
}

#[test]
fn keys_are_ordered_by_code_point() {
    let mut cache = Cache::new(8);
    for key in ["b", "B", "é", "a.b", "a", "ab", ""] {
        cache.insert(key.to_string(), 0);
    }
    let keys: Vec<String> = cache
        .list(ListProps::new())
        .unwrap()
        .into_iter()
        .map(|(k, _)| k)
        .collect();
    let mut expected: Vec<String> =
        ["b", "B", "é", "a.b", "a", "ab", ""].iter().map(|s| s.to_string()).collect();
    expected.sort();
    assert_eq!(keys, expected);
}

#[test]
fn quickleaf_is_the_cache() {
    let mut cache: Quickleaf<i32> = Quickleaf::new(2);
    cache.insert_str("key1", 1);
    assert_eq!(cache.get("key1"), Some(&1));
    assert_eq!(cache.capacity(), 2);
}

#[test]
fn errors_in_words() {
    assert_eq!(Error::SortKeyNotFound.message(), "Sort key not found");
    assert_eq!(Error::CacheAlreadyExists.message(), "Cache already exists");
    assert_eq!(Error::SortKeyExists.message(), "Sort key exists");
    assert_eq!(Error::TableAlreadyExists.message(), "Table already exists");
    assert_eq!(Error::KeyNotFound.message(), "Key not found");
}
