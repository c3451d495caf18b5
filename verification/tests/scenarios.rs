use algs::searching::binary;
use algs::searching::hashtable;
use algs::searching::sequential;

// Replays one sequence of put/delete operations against all three backends
// and checks after every step that get, contains and size agree.
#[test]
fn backends_agree_on_replayed_operations() {
    let mut s = sequential::SymbolTable::new();
    let mut o = binary::SymbolTable::new();
    let mut h = hashtable::SymbolTable::new();
    let ops: Vec<(&str, &str, i64)> = vec![
        ("put", "Fe", 26),
        ("put", "Cr", 24),
        ("put", "Si", 14),
        ("put", "Ag", 47),
        ("put", "Cu", 29),
        ("delete", "Ag", 0),
        ("put", "Fe", 1),
        ("delete", "Pt", 0),
        ("delete", "Cr", 0),
        ("put", "Zn", 30),
    ];
    let probes = vec!["Fe", "Cr", "Si", "Ag", "Cu", "Zn", "Pt"];
    for (op, key, val) in ops {
        match op {
            "put" => {
                s.put(key.to_string(), val);
                o.put(key.to_string(), val);
                h.put(key.to_string(), val);
            },
            _ => {
                s.delete(&key.to_string());
                o.delete(&key.to_string());
                h.delete(&key.to_string());
            },
        }
        assert_eq!(s.size(), o.size());
        assert_eq!(o.size(), h.size());
        for p in &probes {
            let k = p.to_string();
            assert_eq!(s.get(&k), o.get(&k));
            assert_eq!(o.get(&k), h.get(&k));
            assert_eq!(s.contains(&k), o.contains(&k));
            assert_eq!(o.contains(&k), h.contains(&k));
        }
    }
}

// Deleting an absent key leaves size and every lookup unchanged.
#[test]
fn delete_absent_key_changes_nothing() {
    let mut s = sequential::SymbolTable::new();
    let mut o = binary::SymbolTable::new();
    let mut h = hashtable::SymbolTable::new();
    s.put("Fe".to_string(), 26);
    s.put("Cu".to_string(), 29);
    o.put("Fe".to_string(), 26);
    o.put("Cu".to_string(), 29);
    h.put("Fe".to_string(), 26);
    h.put("Cu".to_string(), 29);
    s.delete(&"Pt".to_string());
    o.delete(&"Pt".to_string());
    h.delete(&"Pt".to_string());
    assert_eq!(2, s.size());
    assert_eq!(2, o.size());
    assert_eq!(2, h.size());
    assert_eq!(Some(26), s.get(&"Fe".to_string()));
    assert_eq!(Some(26), o.get(&"Fe".to_string()));
    assert_eq!(Some(26), h.get(&"Fe".to_string()));
    assert_eq!(Some(29), s.get(&"Cu".to_string()));
    assert_eq!(Some(29), o.get(&"Cu".to_string()));
    assert_eq!(Some(29), h.get(&"Cu".to_string()));
}

// The second put of a key wins and the size does not change between the puts.
#[test]
fn put_overwrite_keeps_size() {
    let mut s = sequential::SymbolTable::new();
    let mut o = binary::SymbolTable::new();
    let mut h = hashtable::SymbolTable::new();
    s.put("K".to_string(), 1);
    o.put("K".to_string(), 1);
    h.put("K".to_string(), 1);
    let size_s = s.size();
    let size_o = o.size();
    let size_h = h.size();
    s.put("K".to_string(), 2);
    o.put("K".to_string(), 2);
    h.put("K".to_string(), 2);
    assert_eq!(size_s, s.size());
    assert_eq!(size_o, o.size());
    assert_eq!(size_h, h.size());
    assert_eq!(Some(2), s.get(&"K".to_string()));
    assert_eq!(Some(2), o.get(&"K".to_string()));
    assert_eq!(Some(2), h.get(&"K".to_string()));
}

// Growth: a table of capacity 16 holds 8 entries; the ninth insert is
// preceded by a doubling.  Shrink: deleting down to two entries halves the
// capacity step by step without losing the survivors.
#[test]
fn hashtable_resizes_and_keeps_entries() {
    let mut pt = hashtable::SymbolTable::new();
    assert_eq!(16, pt.capacity());
    let keys = vec!["a", "b", "c", "d", "e", "f", "g", "h", "i"];
    for (i, k) in keys.iter().take(8).enumerate() {
        pt.put(k.to_string(), i as i64);
    }
    assert_eq!(8, pt.size());
    assert_eq!(16, pt.capacity());
    pt.put("i".to_string(), 8);
    assert_eq!(9, pt.size());
    assert_eq!(32, pt.capacity());
    for k in keys.iter().take(7) {
        pt.delete(&k.to_string());
    }
    assert_eq!(2, pt.size());
    assert!(pt.capacity() < 32);
    assert_eq!(Some(7), pt.get(&"h".to_string()));
    assert_eq!(Some(8), pt.get(&"i".to_string()));
}

// An emptied table behaves like a fresh one.
#[test]
fn emptied_table_is_empty() {
    let mut h = hashtable::SymbolTable::new();
    h.put("x".to_string(), 1);
    h.delete(&"x".to_string());
    assert!(h.is_empty());
    assert_eq!(0, h.size());
    assert!(!h.contains(&"x".to_string()));
    h.put("x".to_string(), 2);
    assert_eq!(Some(2), h.get(&"x".to_string()));
}
