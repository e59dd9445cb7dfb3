use toolbox::timestack::{Iter, TimeStack};

fn collect<'a, T: Clone>(mut iter: Iter<'a, T>) -> Vec<T> {
    let mut out = Vec::new();
    while let Some(item) = iter.next() {
        out.push(item.clone());
    }
    out
}

fn assert_iter<T: std::fmt::Debug + PartialEq + Clone>(iter: Iter<'_, T>, slice: &[T]) {
    let vec = collect(iter);
    assert_eq!(vec.as_slice(), slice)
}

/// Modelize the following scope
///
/// ```text
/// var foo
/// var bar
/// {
///   var baz
/// }
/// var toto
/// ```
#[test]
fn scopes() {
    let mut stack = TimeStack::default();

    stack.push("foo");
    stack.push("bar");

    let pre_block_time = stack.time();
    stack.push("baz");
    stack.warp(pre_block_time);

    stack.push("todo");

    // List vars in scope at the current time
    assert_iter(stack.iter_at(stack.time()), &["todo", "bar", "foo"]);
    // List vars in scope before we entered the block
    assert_iter(stack.iter_at(pre_block_time), &["bar", "foo"]);
}

#[test]
fn origin_is_empty() {
    let mut stack = TimeStack::new();
    let origin = stack.time();
    stack.push(1u8);
    stack.push(2u8);
    assert_iter(stack.iter_at(origin), &[]);
    let empty: TimeStack<u8> = TimeStack::new();
    assert_iter(empty.iter_at(empty.time()), &[]);
}

#[test]
fn push_shows_item_first() {
    let mut stack = TimeStack::new();
    stack.push(10);
    stack.push(20);
    let before = collect(stack.iter_at(stack.time()));
    stack.push(30);
    let after = collect(stack.iter_at(stack.time()));
    let mut expected = vec![30];
    expected.extend(before);
    assert_eq!(after, expected);
}

#[test]
fn warp_restores_earlier_time() {
    let mut stack = TimeStack::new();
    stack.push('a');
    let t1 = stack.time();
    stack.push('b');
    stack.push('c');
    stack.warp(t1);
    assert_iter(stack.iter_at(stack.time()), &['a']);
    stack.push('d');
    assert_iter(stack.iter_at(stack.time()), &['d', 'a']);
}

#[test]
fn warp_to_origin_hides_everything() {
    let mut stack = TimeStack::new();
    let origin = stack.time();
    stack.push(1);
    stack.push(2);
    stack.warp(origin);
    assert_iter(stack.iter_at(stack.time()), &[]);
    stack.push(3);
    assert_iter(stack.iter_at(stack.time()), &[3]);
}

#[test]
fn history_preserved_after_more_pushes() {
    let mut stack = TimeStack::new();
    stack.push("x");
    let t = stack.time();
    stack.push("y");
    let t2 = stack.time();
    stack.warp(t);
    stack.push("z");
    assert_iter(stack.iter_at(t), &["x"]);
    assert_iter(stack.iter_at(t2), &["y", "x"]);
    assert_iter(stack.iter_at(stack.time()), &["z", "x"]);
}

#[test]
fn nested_warps() {
    let mut stack = TimeStack::new();
    stack.push(1);
    let t1 = stack.time();
    stack.push(2);
    let t2 = stack.time();
    stack.push(3);
    stack.warp(t2);
    stack.push(4);
    stack.warp(t1);
    stack.push(5);
    assert_iter(stack.iter_at(stack.time()), &[5, 1]);
    let iter = stack.iter_at(stack.time());
    let copy = iter.clone();
    assert_eq!(collect(iter), collect(copy));
}

#[test]
fn time_counts_cells() {
    let mut stack = TimeStack::new();
    let t0 = stack.time();
    stack.push(0u32);
    stack.warp(t0);
    let t2 = stack.time();
    assert_eq!(format!("{:?}", t2), "Time(2)");
    assert_eq!(format!("{:?}", t0), "Time(0)");
}

#[test]
fn next_after_end_stays_none() {
    let mut stack = TimeStack::new();
    stack.push(7);
    let mut iter = stack.iter_at(stack.time());
    assert_eq!(iter.next(), Some(&7));
    assert_eq!(iter.next(), None);
    assert_eq!(iter.next(), None);
}
