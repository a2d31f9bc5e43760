use dstructs::PStack;

#[test]
fn push_pop_share_structure() {
    let empty: PStack<u32> = PStack::new();
    assert!(empty.is_empty());
    assert!(empty.pop().is_none());
    let one = empty.push(1);
    let two = one.push(2);
    // the older stacks are untouched by later pushes
    assert_eq!(empty.len(), 0);
    assert_eq!(one.len(), 1);
    assert_eq!(two.len(), 2);
    let (top, rest) = two.pop().unwrap();
    assert_eq!(*top.get(), 2);
    assert_eq!(rest.len(), 1);
    let (top2, rest2) = rest.pop().unwrap();
    assert_eq!(*top2.get(), 1);
    assert!(rest2.is_empty());
}

#[test]
fn iterator_walks_top_down() {
    let mut stack: PStack<u32> = PStack::new();
    for v in [1u32, 2, 3] {
        stack = stack.push(v);
    }
    let mut it = stack.iter();
    let mut seen = Vec::new();
    while let Some(p) = it.next() {
        seen.push(*p.get());
    }
    assert_eq!(seen, vec![3, 2, 1]);
    // the stack itself is unchanged
    assert_eq!(stack.len(), 3);
}

#[test]
fn lower_reference_reaches_the_previous_stack() {
    let empty: PStack<u32> = PStack::new();
    assert!(empty.get_ref_lower().is_none());
    let one = empty.push(7);
    let lower = one.get_ref_lower().unwrap();
    assert!(lower.is_empty());
}

#[test]
fn popped_value_outlives_the_stack() {
    let value_ref = {
        let stack = PStack::new().push(String::from("kept"));
        let (pref, _rest) = stack.pop().unwrap();
        pref
    };
    assert_eq!(value_ref.get(), "kept");
}
