use fsidx::selection::Selection;
use fsidx::selection::SelectionItem;

#[test]
fn test_selection_iterator() {
    let mut selection = Selection::new();
    selection.insert(b"A", Some(1000));
    selection.insert(b"B", Some(1001));

    let mut it = selection.iter();
    assert_eq!(
        it.next(),
        Some(&SelectionItem {
            path: b"A".to_vec(),
            size: Some(1000)
        })
    );
    assert_eq!(
        it.next(),
        Some(&SelectionItem {
            path: b"B".to_vec(),
            size: Some(1001)
        })
    );
    assert_eq!(it.next(), None);
}
