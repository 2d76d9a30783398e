use quicklist::engine::ListEngine;

fn b(s: &str) -> Vec<u8> {
    s.as_bytes().to_vec()
}

#[test]
fn push_order_and_len() {
    let mut e = ListEngine::new();
    let k = b("k");
    assert_eq!(e.rpush(&k, b("a")), 1);
    assert_eq!(e.rpush(&k, b("b")), 2);
    assert_eq!(e.lpush(&k, b("z")), 3);
    let all = e.lrange(&k, 0, -1);
    assert_eq!(all, vec![b("z"), b("a"), b("b")]);
    assert_eq!(e.llen(&k), Some(3));
}

#[test]
fn pop_last_removes_list() {
    let mut e = ListEngine::new();
    let k = b("k");
    e.rpush(&k, b("a"));
    let v = e.lpop(&k).unwrap();
    assert_eq!(v, b("a"));
    assert_eq!(e.llen(&k), None);
}

#[test]
fn lindex_negative_is_last() {
    let mut e = ListEngine::new();
    let k = b("k");
    e.rpush(&k, b("a"));
    e.rpush(&k, b("b"));
    e.rpush(&k, b("c"));
    assert_eq!(e.lindex(&k, -1).unwrap(), b("c"));
    assert_eq!(e.lindex(&k, 0).unwrap(), b("a"));
    assert!(e.lindex(&k, 3).is_err());
    assert!(e.lindex(&k, -4).is_err());
}

#[test]
fn lrange_windows() {
    let mut e = ListEngine::new();
    let k = b("k");
    for s in ["a", "b", "c", "d"] {
        e.rpush(&k, b(s));
    }
    assert_eq!(e.lrange(&k, 1, 2), vec![b("b"), b("c")]);
    assert_eq!(e.lrange(&k, -2, -1), vec![b("c"), b("d")]);
    assert_eq!(e.lrange(&k, 2, 1), Vec::<Vec<u8>>::new());
    assert_eq!(e.lrange(&b("missing"), 0, -1), Vec::<Vec<u8>>::new());
}

#[test]
fn multi_node_chain_full_range() {
    let mut e = ListEngine::new();
    let k = b("k");
    let mut expect = Vec::new();
    for i in 0..100u32 {
        let v = format!("v{}", i).into_bytes();
        e.rpush(&k, v.clone());
        expect.push(v);
    }
    assert_eq!(e.llen(&k), Some(100));
    assert_eq!(e.lrange(&k, 0, -1), expect);
    assert_eq!(e.lindex(&k, -1).unwrap(), b("v99"));
    assert_eq!(e.lindex(&k, 50).unwrap(), b("v50"));
}

#[test]
fn lifo_and_fifo_round_trips() {
    let mut e = ListEngine::new();
    let k = b("k");
    e.rpush(&k, b("x"));
    e.lpush(&k, b("y"));
    assert_eq!(e.lpop(&k).unwrap(), b("y"));
    assert_eq!(e.rpop(&k).unwrap(), b("x"));
    assert_eq!(e.llen(&k), None);
}

#[test]
fn pops_cross_node_boundaries() {
    let mut e = ListEngine::new();
    let k = b("k");
    for i in 0..70u32 {
        e.rpush(&k, format!("v{}", i).into_bytes());
    }
    for i in 0..70u32 {
        assert_eq!(e.lpop(&k).unwrap(), format!("v{}", i).into_bytes());
    }
    assert_eq!(e.llen(&k), None);
    assert!(e.lpop(&k).is_err());
}

#[test]
fn push_exists_noop_on_absent() {
    let mut e = ListEngine::new();
    let k = b("k");
    assert_eq!(e.lpush_exists(&k, b("a")), 0);
    assert_eq!(e.rpush_exists(&k, b("a")), 0);
    assert_eq!(e.llen(&k), None);
    e.rpush(&k, b("a"));
    assert_eq!(e.rpush_exists(&k, b("b")), 2);
    assert_eq!(e.lpush_exists(&k, b("z")), 3);
    assert_eq!(e.lrange(&k, 0, -1), vec![b("z"), b("a"), b("b")]);
}

#[test]
fn independent_keys() {
    let mut e = ListEngine::new();
    e.rpush(&b("k1"), b("a"));
    e.rpush(&b("k2"), b("x"));
    e.rpush(&b("k1"), b("b"));
    assert_eq!(e.lrange(&b("k1"), 0, -1), vec![b("a"), b("b")]);
    assert_eq!(e.lrange(&b("k2"), 0, -1), vec![b("x")]);
    e.lpop(&b("k2")).unwrap();
    assert_eq!(e.llen(&b("k2")), None);
    assert_eq!(e.llen(&b("k1")), Some(2));
}

#[test]
fn not_found_errors() {
    let mut e = ListEngine::new();
    assert!(e.lpop(&b("nope")).is_err());
    assert!(e.rpop(&b("nope")).is_err());
    assert!(e.lindex(&b("nope"), 0).is_err());
    assert_eq!(e.llen(&b("nope")), None);
}

#[test]
fn lrem_first_match_only() {
    let mut e = ListEngine::new();
    let k = b("k");
    for s in ["a", "b", "a", "c"] {
        e.rpush(&k, b(s));
    }
    let n = e.lrem(&k, 1, &b("a"));
    assert_eq!(n, 1);
    assert_eq!(e.lrange(&k, 0, -1), vec![b("b"), b("a"), b("c")]);
}

#[test]
fn lrem_zero_removes_all_matches() {
    let mut e = ListEngine::new();
    let k = b("k");
    for s in ["v", "a", "v", "b", "v"] {
        e.rpush(&k, b(s));
    }
    let n = e.lrem(&k, 0, &b("v"));
    assert_eq!(n, 3);
    assert_eq!(e.lrange(&k, 0, -1), vec![b("a"), b("b")]);
    assert_eq!(e.lrem(&k, 0, &b("zz")), 0);
    assert_eq!(e.llen(&k), Some(2));
}

#[test]
fn lrem_empties_and_deletes_list() {
    let mut e = ListEngine::new();
    let k = b("k");
    e.rpush(&k, b("v"));
    e.rpush(&k, b("v"));
    assert_eq!(e.lrem(&k, 0, &b("v")), 2);
    assert_eq!(e.llen(&k), None);
    assert_eq!(e.lrem(&k, 0, &b("v")), 0);
}

#[test]
fn lrem_across_nodes_with_budget() {
    let mut e = ListEngine::new();
    let k = b("k");
    for i in 0..80u32 {
        if i % 2 == 0 {
            e.rpush(&k, b("m"));
        } else {
            e.rpush(&k, format!("v{}", i).into_bytes());
        }
    }
    assert_eq!(e.lrem(&k, 10, &b("m")), 10);
    assert_eq!(e.llen(&k), Some(70));
    assert_eq!(e.lrem(&k, 0, &b("m")), 30);
    assert_eq!(e.llen(&k), Some(40));
}

#[test]
fn linsert_after_pivot() {
    let mut e = ListEngine::new();
    let k = b("k");
    for s in ["a", "b", "c"] {
        e.rpush(&k, b(s));
    }
    let n = e.linsert_after(&k, &b("b"), b("x"));
    assert_eq!(n, 1);
    assert_eq!(e.lrange(&k, 0, -1), vec![b("a"), b("b"), b("x"), b("c")]);
}

#[test]
fn linsert_before_pivot() {
    let mut e = ListEngine::new();
    let k = b("k");
    for s in ["a", "b", "c"] {
        e.rpush(&k, b(s));
    }
    let n = e.linsert_before(&k, &b("b"), b("x"));
    assert_eq!(n, 1);
    assert_eq!(e.lrange(&k, 0, -1), vec![b("a"), b("x"), b("b"), b("c")]);
}

#[test]
fn linsert_pivot_missing_or_list_absent() {
    let mut e = ListEngine::new();
    let k = b("k");
    assert_eq!(e.linsert_after(&k, &b("p"), b("x")), 0);
    e.rpush(&k, b("a"));
    assert_eq!(e.linsert_after(&k, &b("p"), b("x")), 0);
    assert_eq!(e.lrange(&k, 0, -1), vec![b("a")]);
}

#[test]
fn linsert_first_occurrence_across_nodes() {
    let mut e = ListEngine::new();
    let k = b("k");
    for i in 0..40u32 {
        e.rpush(&k, format!("v{}", i).into_bytes());
    }
    e.rpush(&k, b("p"));
    e.rpush(&k, b("p"));
    let n = e.linsert_before(&k, &b("p"), b("x"));
    assert_eq!(n, 1);
    assert_eq!(e.lindex(&k, 40).unwrap(), b("x"));
    assert_eq!(e.lindex(&k, 41).unwrap(), b("p"));
    assert_eq!(e.llen(&k), Some(43));
}

#[test]
fn lrem_negative_scans_from_tail() {
    let mut e = ListEngine::new();
    let k = b("k");
    for s in ["a", "b", "a", "c", "a"] {
        e.rpush(&k, b(s));
    }
    let n = e.lrem(&k, -2, &b("a"));
    assert_eq!(n, 2);
    assert_eq!(e.lrange(&k, 0, -1), vec![b("a"), b("b"), b("c")]);
}

#[test]
fn lrem_negative_can_empty_list() {
    let mut e = ListEngine::new();
    let k = b("k");
    e.rpush(&k, b("v"));
    assert_eq!(e.lrem(&k, -5, &b("v")), 1);
    assert_eq!(e.llen(&k), None);
    assert_eq!(e.lrem(&k, -1, &b("v")), 0);
}

#[test]
fn lset_resolves_signed_indices() {
    let mut e = ListEngine::new();
    let k = b("k");
    for s in ["a", "b", "c"] {
        e.rpush(&k, b(s));
    }
    assert!(e.lset(&k, 1, b("B")).is_ok());
    assert!(e.lset(&k, -1, b("C")).is_ok());
    assert_eq!(e.lrange(&k, 0, -1), vec![b("a"), b("B"), b("C")]);
    assert!(e.lset(&k, 3, b("x")).is_err());
    assert!(e.lset(&k, -4, b("x")).is_err());
    assert!(e.lset(&b("missing"), 0, b("x")).is_err());
}

#[test]
fn ltrim_keeps_window() {
    let mut e = ListEngine::new();
    let k = b("k");
    for s in ["a", "b", "c", "d", "e"] {
        e.rpush(&k, b(s));
    }
    let n = e.ltrim(&k, 1, 3);
    assert_eq!(n, 2);
    assert_eq!(e.lrange(&k, 0, -1), vec![b("b"), b("c"), b("d")]);
    assert_eq!(e.llen(&k), Some(3));
}

#[test]
fn ltrim_empty_window_deletes_list() {
    let mut e = ListEngine::new();
    let k = b("k");
    for s in ["a", "b", "c"] {
        e.rpush(&k, b(s));
    }
    let n = e.ltrim(&k, 2, 1);
    assert_eq!(n, 3);
    assert_eq!(e.llen(&k), None);
    assert_eq!(e.ltrim(&k, 0, -1), 0);
}
