use stack_queue::{Stack, StackError};

#[test]
fn test_is_empty() {
    let mut stack: Stack<i32> = Stack::new();

    assert_eq!(true, stack.is_empty());

    let _ = stack.push(2);
    assert_eq!(false, stack.is_empty());
}

#[test]
fn test_push_and_pop() {
    let mut stack: Stack<i32> = Stack::new();

    let range = 0..30;

    for i in range.clone() {
        let _ = stack.push(i);
    }

    assert_eq!(30, stack.size());

    for i in range.rev() {
        assert_eq!(Ok(i), stack.pop())
    }
    assert_eq!(0, stack.size());
    assert_eq!(Err(StackError::EmptyStack), stack.pop());
}

#[test]
fn stack_test_iterator() {
    let mut stack: Stack<i32> = Stack::new();

    let range = 0..10;

    for i in range.clone() {
        let _ = stack.push(i);
    }

    assert_eq!(stack.size(), 10);

    let mut iter = stack.iter();

    for j in range.rev() {
        assert_eq!(iter.next(), Some(&j));
    }

    assert_eq!(iter.next(), None);
    // We're only iterating, not popping the item.
    assert_eq!(stack.size(), 10);
}

#[test]
fn pop_on_new_stack_fails_with_empty_stack() {
    let mut stack: Stack<u8> = Stack::new();

    assert_eq!(stack.pop(), Err(StackError::EmptyStack));
    assert_eq!(stack.pop(), Err(StackError::EmptyStack));
    assert!(stack.is_empty());

    stack.push(7);
    assert_eq!(stack.pop(), Ok(7));
    assert_eq!(stack.pop(), Err(StackError::EmptyStack));
}

#[test]
fn default_stack_is_empty() {
    let mut stack: Stack<u8> = Stack::default();

    assert!(stack.is_empty());
    assert_eq!(stack.size(), 0);
    assert_eq!(stack.peek(), None);
    assert_eq!(stack.pop(), Err(StackError::EmptyStack));
}

#[test]
fn pop_returns_values_in_reverse_order_of_push() {
    for n in [0usize, 1, 2, 3, 17, 1000] {
        let mut stack: Stack<usize> = Stack::new();
        for i in 0..n {
            stack.push(i * 3 + 2);
        }
        for i in (0..n).rev() {
            assert_eq!(stack.pop(), Ok(i * 3 + 2));
        }
        assert!(stack.is_empty());
        assert_eq!(stack.pop(), Err(StackError::EmptyStack));
    }
}

#[test]
fn pops_uncover_what_was_there_before_the_pushes() {
    let mut stack: Stack<u32> = Stack::new();
    stack.push(100);
    stack.push(200);

    for v in [1, 2, 3] {
        stack.push(v);
    }
    assert_eq!(stack.pop(), Ok(3));
    assert_eq!(stack.pop(), Ok(2));
    assert_eq!(stack.pop(), Ok(1));

    assert_eq!(stack.size(), 2);
    assert_eq!(stack.pop(), Ok(200));
    assert_eq!(stack.pop(), Ok(100));
    assert_eq!(stack.pop(), Err(StackError::EmptyStack));
}

#[test]
fn stack_size_counts_the_pushed_values() {
    let mut stack: Stack<u32> = Stack::new();
    assert_eq!(stack.size(), 0);
    for n in 1..=200usize {
        stack.push(9);
        assert_eq!(stack.size(), n);
    }
}

#[test]
fn peek_shows_the_top_and_leaves_it_in_place() {
    let mut stack: Stack<i32> = Stack::new();
    assert_eq!(stack.peek(), None);

    stack.push(11);
    assert_eq!(stack.peek(), Some(&11));
    stack.push(22);
    assert_eq!(stack.peek(), Some(&22));
    assert_eq!(stack.peek(), Some(&22));
    assert_eq!(stack.size(), 2);

    assert_eq!(stack.pop(), Ok(22));
    assert_eq!(stack.peek(), Some(&11));
    assert_eq!(stack.pop(), Ok(11));
    assert_eq!(stack.peek(), None);
}

#[test]
fn is_empty_follows_pushes_and_pops() {
    let mut stack: Stack<i32> = Stack::new();
    assert!(stack.is_empty());
    stack.push(1);
    stack.push(2);
    assert!(!stack.is_empty());
    assert_eq!(stack.pop(), Ok(2));
    assert!(!stack.is_empty());
    assert_eq!(stack.pop(), Ok(1));
    assert!(stack.is_empty());
}

#[test]
fn stack_iteration_leaves_the_stack_as_it_was() {
    let mut stack: Stack<i64> = Stack::new();
    for v in [5, -3, 8, 8, 0] {
        stack.push(v);
    }

    let first: Vec<i64> = stack.iter().copied().collect();
    assert_eq!(first, vec![0, 8, 8, -3, 5]);
    assert_eq!(stack.size(), 5);

    let second: Vec<i64> = stack.iter().copied().collect();
    assert_eq!(second, first);
    assert_eq!(stack.size(), 5);

    assert_eq!(stack.pop(), Ok(0));
}

#[test]
fn stack_iterator_stays_at_the_end() {
    let mut stack: Stack<u8> = Stack::new();
    stack.push(4);

    let mut iter = stack.iter();
    assert_eq!(iter.next(), Some(&4));
    assert_eq!(iter.next(), None);
    assert_eq!(iter.next(), None);
}

#[test]
fn stack_iterator_on_empty_stack_is_at_the_end() {
    let stack: Stack<u8> = Stack::new();

    assert_eq!(stack.iter().next(), None);
    assert_eq!(stack.iter().count(), 0);
}

#[test]
fn stack_agrees_with_a_reference_stack_on_a_long_run() {
    let mut stack: Stack<u64> = Stack::new();
    let mut reference: Vec<u64> = Vec::new();
    let mut state: u64 = 0x9e37_79b9_7f4a_7c15;

    for step in 0..20_000u64 {
        state = state.wrapping_mul(6364136223846793005).wrapping_add(1442695040888963407);
        if (state >> 33) % 5 < 3 {
            stack.push(step);
            reference.push(step);
        } else {
            assert_eq!(stack.pop(), reference.pop().ok_or(StackError::EmptyStack));
        }
        assert_eq!(stack.peek(), reference.last());
        assert_eq!(stack.is_empty(), reference.is_empty());
        if step % 997 == 0 {
            assert_eq!(stack.size(), reference.len());
            let held: Vec<u64> = stack.iter().copied().collect();
            let expected: Vec<u64> = reference.iter().rev().copied().collect();
            assert_eq!(held, expected);
        }
    }
}

#[test]
fn stack_hands_back_owned_values() {
    let mut stack: Stack<String> = Stack::new();
    stack.push(String::from("below"));
    stack.push(String::from("above"));

    assert_eq!(stack.peek().map(|s| s.as_str()), Some("above"));
    assert_eq!(stack.pop(), Ok(String::from("above")));
    assert_eq!(stack.pop(), Ok(String::from("below")));
    assert_eq!(stack.pop(), Err(StackError::EmptyStack));
}

#[test]
fn long_stack_is_released_without_deep_recursion() {
    let mut stack: Stack<u32> = Stack::new();
    for i in 0..400_000u32 {
        stack.push(i);
    }
    assert_eq!(stack.size(), 400_000);
    assert_eq!(stack.peek(), Some(&399_999));
    drop(stack);
}

#[test]
fn stack_error_can_be_compared_and_printed() {
    assert_eq!(StackError::EmptyStack, StackError::EmptyStack);
    assert_eq!(format!("{:?}", StackError::EmptyStack), "EmptyStack");
}
