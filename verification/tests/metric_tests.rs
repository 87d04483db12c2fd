use lisp_core::metric::Internal;
use lisp_core::metric::Metric;
use lisp_core::metric::new_root;

fn metric(x: u64) -> Metric {
    Metric { bytes: x * 2, chars: x }
}

#[test]
fn test_insert() {
    let mut root = new_root();
    root.insert(metric(10));
    println!("{}", root.render());
    root.insert(metric(5));
    for i in 0..10 {
        println!("pushing {i}");
        root.insert(metric(i));
        println!("{}", root.render());
    }
}

#[test]
fn test_push() {
    let mut root = new_root();
    println!("{}", root.render());
    for i in 1..20 {
        println!("pushing {i}");
        root.insert(metric(i));
        println!("{}", root.render());
    }
}

#[test]
fn test_search() {
    let mut root = new_root();
    for i in 1..20 {
        root.insert(metric(i));
    }
    for i in 0..20u64 {
        println!("searching for {i}");
        let metric = root.search_byte(i * 2);
        assert_eq!(metric.chars, i);
    }
}

#[test]
fn test_search_chars() {
    let mut root = new_root();
    for i in 1..20 {
        root.insert(metric(i));
    }
    for i in 0..20u64 {
        println!("searching for {i}");
        let metric = root.search_char(i);
        assert_eq!(metric.bytes, i * 2);
    }
}

#[test]
fn test_add() {
    let mut root = new_root();
    for i in 1..20 {
        root.insert(metric(i));
    }
    for i in 0..20u64 {
        let metric = root.search_char(i);
        assert_eq!(metric.bytes, i * 2);
    }
    println!("init {}", root.render());
    for i in (1..20u64).rev() {
        println!("adding {i}");
        root.add(i, metric(1));
        println!("{}", root.render());
    }
    for i in (0..20u64).step_by(2) {
        println!("searching for {i}");
        let metric = root.search_char(i);
        assert_eq!(metric.bytes, i * 2);
    }
}

#[test]
fn test_remove() {
    let mut root = new_root();
    for i in 1..20 {
        root.insert(metric(i));
    }
    for i in 0..20u64 {
        let metric = root.search_char(i);
        assert_eq!(metric.bytes, i * 2);
    }

    for i in (1..20u64).rev() {
        root.add(i, metric(1));
    }

    for i in (0..20u64).step_by(2) {
        let metric = root.search_char(i);
        assert_eq!(metric.bytes, i * 2);
    }

    println!("init: {}", root.render());
    for i in (1..20u64).rev() {
        println!("removing {i}");
        root.remove(i * 2, metric(1));
        println!("{}", root.render());
    }

    for i in 0..20u64 {
        println!("searching for {i}");
        let metric = root.search_char(i);
        assert_eq!(metric.bytes, i * 2);
    }
}

#[test]
fn test_delete() {
    let mut root = new_root();
    for i in 1..20 {
        root.insert(metric(i));
    }
    for i in 0..20u64 {
        let metric = root.search_char(i);
        assert_eq!(metric.bytes, i * 2);
    }
    let metrics = root.metrics();

    println!("init: {}", root.render());
    for i in 0..19 {
        root.delete(metric(12));
        println!("after {i} iteration: {}", root.render());
    }
    let metrics_after = root.metrics();
    assert_eq!(metrics, metrics_after);
}

#[test]
fn test_delete_range_leaf() {
    let mut root = new_root();
    // shouldn't need more than a single leaf node
    root.insert(metric(12));
    root.insert(metric(4));
    root.insert(metric(8));
    assert_eq!(root.metrics(), metric(12));
    println!("init: {}", root.render());
    root.delete_range(metric(1), metric(3));
    assert_eq!(root.metrics(), metric(10));
    println!("after: {}", root.render());
    root.delete_range(metric(2), metric(6));
    assert_eq!(root.metrics(), metric(6));
    println!("after: {}", root.render());
    root.delete_range(metric(1), metric(4));
    assert_eq!(root.metrics(), metric(3));
    println!("after: {}", root.render());
    root.delete_range(metric(0), metric(1));
    assert_eq!(root.metrics(), metric(2));
    println!("after: {}", root.render());
}

#[test]
fn test_delete_range_internal() {
    let mut root = new_root();
    root.insert(metric(24));
    root.insert(metric(20));
    root.insert(metric(16));
    root.insert(metric(12));
    root.insert(metric(8));
    println!("init: {}", root.render());
    root.delete_range(metric(0), metric(12));
    assert_eq!(root.metrics(), metric(12));
    println!("after: {}", root.render());

    let mut root = new_root();
    root.insert(metric(24));
    root.insert(metric(20));
    root.insert(metric(16));
    root.insert(metric(12));
    root.insert(metric(8));
    println!("init: {}", root.render());
    root.delete_range(metric(12), metric(24));
    assert_eq!(root.metrics(), metric(12));
    println!("after: {}", root.render());
}

#[test]
fn main_test_insert() {
    let mut root = new_root();
    root.insert(metric(10));
    println!("{}", root.render());
    root.insert(metric(5));
    for i in 0..10 {
        println!("pushing {i}");
        root.insert(metric(i));
        println!("{}", root.render());
    }
}

#[test]
fn main_test_push() {
    let mut root = new_root();
    println!("{}", root.render());
    for i in 1..20 {
        println!("pushing {i}");
        root.insert(metric(i));
        println!("{}", root.render());
    }
}

#[test]
fn main_test_search() {
    let mut root = new_root();
    for i in 1..20 {
        root.insert(metric(i));
    }
    for i in 0..20u64 {
        println!("searching for {i}");
        let metric = root.search_byte(i * 2);
        assert_eq!(metric.chars, i);
    }
}

#[test]
fn main_test_search_chars() {
    let mut root = new_root();
    for i in 1..20 {
        root.insert(metric(i));
    }
    for i in 0..20u64 {
        println!("searching for {i}");
        let metric = root.search_char(i);
        assert_eq!(metric.bytes, i * 2);
    }
}

#[test]
fn two_inserts_total() {
    // insert at ten then at five into an empty index: the total covers
    // both extents
    let mut root = new_root();
    root.insert(metric(10));
    root.insert(metric(5));
    let total = root.metrics();
    assert_eq!(total.bytes, 20);
    assert_eq!(total.chars, 10);
}

#[test]
fn add_remove_round_trip() {
    // the same adjustment applied and then removed leaves every summary
    // unchanged
    let mut root = new_root();
    for i in 1..20 {
        root.insert(metric(i));
    }
    let before = root.render();
    root.add(7, metric(3));
    root.remove(7, metric(3));
    let after = root.render();
    assert_eq!(before, after);
}

#[test]
fn insert_delete_total_round_trip() {
    // a split followed by a point delete restores the prior total
    let mut root = new_root();
    for i in 1..20 {
        root.insert(metric(i));
    }
    let before = root.metrics();
    root.insert(metric(7));
    root.delete(metric(7));
    let after = root.metrics();
    assert_eq!(before, after);
}

#[test]
fn interleaved_total_is_leaf_sum() {
    // after interleaved edits, the root total equals the sum the in-order
    // walk reaches when it consumes the whole char extent
    let mut root = new_root();
    for i in 1..12 {
        root.insert(metric(i));
    }
    root.delete(metric(4));
    root.add(3, metric(2));
    root.insert(metric(6));
    root.delete(metric(9));
    root.remove(3, metric(1));
    let total = root.metrics();
    let walked = root.search_char(total.chars);
    assert_eq!(walked.bytes, total.bytes);
    assert_eq!(walked.chars, total.chars);
    let walked_b = root.search_byte(total.bytes);
    assert_eq!(walked_b.chars, total.chars);
}

#[test]
fn delete_final_leaf_leaves_sentinel() {
    // deleting the only leaf leaves a sentinel of zero metric
    let mut root = new_root();
    root.insert(metric(4));
    root.delete(metric(1));
    root.delete(metric(1));
    let total = root.metrics();
    assert_eq!(total.bytes, 0);
    assert_eq!(total.chars, 0);
}
