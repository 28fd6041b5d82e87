use vectx::visited::VisitedSet;

#[test]
fn test_visited_set() {
    let mut vs = VisitedSet::new(100);

    // Test insert and contains
    assert!(!vs.contains(5));
    assert!(vs.insert(5)); // First insert returns true
    assert!(vs.contains(5));
    assert!(!vs.insert(5)); // Second insert returns false

    // Test clear
    vs.clear();
    assert!(!vs.contains(5));
    assert!(vs.insert(5));
}
