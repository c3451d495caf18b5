use algs::searching::binary;
use algs::searching::hashtable;
use algs::searching::sequential;

fn sequential_empty_table() -> sequential::SymbolTable {
    sequential::SymbolTable::new()
}

fn sequential_table_5_elements() -> sequential::SymbolTable {
    let mut pt = sequential::SymbolTable::new();
    pt.put("Fe".to_string(), 26);
    pt.put("Cr".to_string(), 24);
    pt.put("Si".to_string(), 14);
    pt.put("Ag".to_string(), 47);
    pt.put("Cu".to_string(), 29);
    pt
}

#[test]
fn sequential_symbol_table_with_0_elements() {
    let pt = sequential_empty_table();
    assert!(pt.get(&"Fe".to_string()).is_none());
    assert!(!pt.contains(&"Fe".to_string()));
    assert!(pt.is_empty());
    assert_eq!(0, pt.size());
}

#[test]
fn sequential_symbol_table_with_1_element() {
    let mut pt = sequential_empty_table();
    pt.put("Fe".to_string(), 26);
    assert_eq!(Some(26), pt.get(&"Fe".to_string()));
    assert!(pt.get(&"Cr".to_string()).is_none());
    assert!(pt.contains(&"Fe".to_string()));
    assert!(!pt.contains(&"Pt".to_string()));
    assert!(!pt.is_empty());
    assert_eq!(1, pt.size());
}

#[test]
fn sequential_symbol_table_with_5_elements() {
    let pt = sequential_table_5_elements();
    assert_eq!(Some(47), pt.get(&"Ag".to_string()));
    assert!(pt.get(&"Pb".to_string()).is_none());
    assert!(pt.contains(&"Ag".to_string()));
    assert!(!pt.contains(&"Pt".to_string()));
    assert!(!pt.is_empty());
    assert_eq!(5, pt.size());
}

#[test]
fn sequential_deleting_entries() {
    let mut pt = sequential_table_5_elements();
    pt.delete(&"Ag".to_string());
    assert!(!pt.contains(&"Ag".to_string()));
    assert_eq!(4, pt.size());
    for element in vec!["Cr", "Cu", "Fe", "Si"] {
        pt.delete(&element.to_string());
    }
    assert!(pt.is_empty());
}

#[test]
fn sequential_changing_entry() {
    let mut pt = sequential_table_5_elements();
    pt.put("Fe".to_string(), 12345);
    assert_eq!(Some(12345), pt.get(&"Fe".to_string()));
    pt.delete(&"Fe".to_string());
    assert!(!pt.contains(&"Fe".to_string()));
    pt.put("Fe".to_string(), 54321);
    assert_eq!(Some(54321), pt.get(&"Fe".to_string()));
}

fn binary_empty_table() -> binary::SymbolTable {
    binary::SymbolTable::new()
}

fn binary_table_5_elements() -> binary::SymbolTable {
    let mut pt = binary::SymbolTable::new();
    pt.put("Fe".to_string(), 26);
    pt.put("Cr".to_string(), 24);
    pt.put("Si".to_string(), 14);
    pt.put("Ag".to_string(), 47);
    pt.put("Cu".to_string(), 29);
    pt
}

#[test]
fn binary_symbol_table_with_0_elements() {
    let pt = binary_empty_table();
    assert!(pt.get(&"Fe".to_string()).is_none());
    assert!(!pt.contains(&"Fe".to_string()));
    assert!(pt.is_empty());
    assert_eq!(0, pt.size());
}

#[test]
fn binary_symbol_table_with_1_element() {
    let mut pt = binary_empty_table();
    pt.put("Fe".to_string(), 26);
    assert_eq!(Some(26), pt.get(&"Fe".to_string()));
    assert!(pt.get(&"Cr".to_string()).is_none());
    assert!(pt.contains(&"Fe".to_string()));
    assert!(!pt.contains(&"Pt".to_string()));
    assert!(!pt.is_empty());
    assert_eq!(1, pt.size());
}

#[test]
fn binary_symbol_table_with_5_elements() {
    let pt = binary_table_5_elements();
    assert_eq!(Some(47), pt.get(&"Ag".to_string()));
    assert!(pt.get(&"Pb".to_string()).is_none());
    assert!(pt.contains(&"Ag".to_string()));
    assert!(!pt.contains(&"Pt".to_string()));
    assert!(!pt.is_empty());
    assert_eq!(5, pt.size());
}

#[test]
fn binary_deleting_entries() {
    let mut pt = binary_table_5_elements();
    pt.delete(&"Ag".to_string());
    assert!(!pt.contains(&"Ag".to_string()));
    assert_eq!(4, pt.size());
    for element in vec!["Cr", "Cu", "Fe", "Si"] {
        pt.delete(&element.to_string());
    }
    assert!(pt.is_empty());
}

#[test]
fn binary_changing_entry() {
    let mut pt = binary_table_5_elements();
    pt.put("Fe".to_string(), 12345);
    assert_eq!(Some(12345), pt.get(&"Fe".to_string()));
    pt.delete(&"Fe".to_string());
    assert!(!pt.contains(&"Fe".to_string()));
    pt.put("Fe".to_string(), 54321);
    assert_eq!(Some(54321), pt.get(&"Fe".to_string()));
}

fn hashtable_empty_table() -> hashtable::SymbolTable {
    hashtable::SymbolTable::new()
}

fn hashtable_table_5_elements() -> hashtable::SymbolTable {
    let mut pt = hashtable::SymbolTable::new();
    pt.put("Fe".to_string(), 26);
    pt.put("Cr".to_string(), 24);
    pt.put("Si".to_string(), 14);
    pt.put("Ag".to_string(), 47);
    pt.put("Cu".to_string(), 29);
    pt
}

#[test]
fn hashtable_symbol_table_with_0_elements() {
    let pt = hashtable_empty_table();
    assert!(pt.get(&"Fe".to_string()).is_none());
    assert!(!pt.contains(&"Fe".to_string()));
    assert!(pt.is_empty());
    assert_eq!(0, pt.size());
}

#[test]
fn hashtable_symbol_table_with_1_element() {
    let mut pt = hashtable_empty_table();
    pt.put("Fe".to_string(), 26);
    assert_eq!(Some(26), pt.get(&"Fe".to_string()));
    assert!(pt.get(&"Cr".to_string()).is_none());
    assert!(pt.contains(&"Fe".to_string()));
    assert!(!pt.contains(&"Pt".to_string()));
    assert!(!pt.is_empty());
    assert_eq!(1, pt.size());
}

#[test]
fn hashtable_symbol_table_with_5_elements() {
    let pt = hashtable_table_5_elements();
    assert_eq!(Some(47), pt.get(&"Ag".to_string()));
    assert!(pt.get(&"Pb".to_string()).is_none());
    assert!(pt.contains(&"Ag".to_string()));
    assert!(!pt.contains(&"Pt".to_string()));
    assert!(!pt.is_empty());
    assert_eq!(5, pt.size());
}

#[test]
fn hashtable_deleting_entries() {
    let mut pt = hashtable_table_5_elements();
    pt.delete(&"Ag".to_string());
    assert!(!pt.contains(&"Ag".to_string()));
    assert_eq!(4, pt.size());
    for element in vec!["Cr", "Cu", "Fe", "Si"] {
        pt.delete(&element.to_string());
    }
    assert!(pt.is_empty());
}

#[test]
fn hashtable_changing_entry() {
    let mut pt = hashtable_table_5_elements();
    pt.put("Fe".to_string(), 12345);
    assert_eq!(Some(12345), pt.get(&"Fe".to_string()));
    pt.delete(&"Fe".to_string());
    assert!(!pt.contains(&"Fe".to_string()));
    pt.put("Fe".to_string(), 54321);
    assert_eq!(Some(54321), pt.get(&"Fe".to_string()));
}
