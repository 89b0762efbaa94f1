use file_index::order::{compare_codes, Order};
use file_index::path::{encode, RelPath};
use file_index::paths::PathSet;
use file_index::text::{chars_of, string_of};
use relative_path::RelativePath;

fn order_of(a: &str, b: &str) -> Order {
    RelPath::new(a).order(&RelPath::new(b))
}

fn expected(a: &str, b: &str) -> Order {
    match RelativePath::new(a).cmp(RelativePath::new(b)) {
        std::cmp::Ordering::Less => Order::Less,
        std::cmp::Ordering::Equal => Order::Equal,
        std::cmp::Ordering::Greater => Order::Greater,
    }
}

const SAMPLES: [&str; 24] = [
    "", "/", ".", "./", "..", "../a", "a", "a/", "a/b", "a//b", "./a/b", "a/./b", "a/../b", "a-b",
    "a.b", "a/b/c", "ab", "b", "-", "!x/y", "..a", ".hidden", "caf\u{e9}/x", "z/\u{10000}",
];

#[test]
fn codes_compare_in_dictionary_order() {
    assert_eq!(compare_codes(&vec![], &vec![]), Order::Equal);
    assert_eq!(compare_codes(&vec![], &vec![0]), Order::Less);
    assert_eq!(compare_codes(&vec![0], &vec![]), Order::Greater);
    assert_eq!(compare_codes(&vec![1, 2, 3], &vec![1, 2, 3]), Order::Equal);
    assert_eq!(compare_codes(&vec![1, 2, 3], &vec![1, 3]), Order::Less);
    assert_eq!(compare_codes(&vec![1, 2, 3], &vec![1, 2]), Order::Greater);
    assert_eq!(compare_codes(&vec![2], &vec![1, 9, 9]), Order::Greater);
}

#[test]
fn key_of_components() {
    let parts = vec![".".to_string(), "..".to_string(), "ab".to_string()];
    assert_eq!(encode(&parts), vec![1, 47, 0, 2, 47, 47, 0, 3, 98, 99, 0]);
    assert_eq!(encode(&Vec::new()), Vec::<u32>::new());
}

#[test]
fn path_keeps_its_text() {
    assert_eq!(RelPath::new("a//b").as_str(), "a//b");
    assert_eq!(RelPath::from_string("x/y.txt".to_string()).as_str(), "x/y.txt");
    assert_eq!(RelPath::new("a//b").clone().as_str(), "a//b");
}

#[test]
fn slashes_do_not_tell_paths_apart() {
    assert!(RelPath::new("a//b").same(&RelPath::new("a/b")));
    assert!(RelPath::new("a/b/").same(&RelPath::new("/a/b")));
    assert!(!RelPath::new("a/b").same(&RelPath::new("ab")));
    assert!(!RelPath::new("a/b").same(&RelPath::new("a/./b")));
    assert!(!RelPath::new("a/b").same(&RelPath::new("b/a")));
    assert_eq!(order_of("a//b", "a/b"), Order::Equal);
}

#[test]
fn paths_are_ordered_by_components() {
    assert_eq!(order_of("a/b", "a-b"), Order::Less);
    assert_eq!(order_of("a", "a/b"), Order::Less);
    assert_eq!(order_of("b", "a/b"), Order::Greater);
    assert_eq!(order_of(".", ".."), Order::Less);
    assert_eq!(order_of("..", "-"), Order::Less);
    assert_eq!(order_of(".", "!"), Order::Less);
    assert_eq!(order_of("a/.", "a/-"), Order::Less);
}

#[test]
fn order_agrees_with_relative_path() {
    for a in SAMPLES.iter() {
        for b in SAMPLES.iter() {
            assert_eq!(order_of(a, b), expected(a, b), "{:?} against {:?}", a, b);
            assert_eq!(
                RelPath::new(a).same(&RelPath::new(b)),
                RelativePath::new(a) == RelativePath::new(b),
                "{:?} against {:?}",
                a,
                b
            );
        }
    }
}

#[test]
fn text_to_characters_and_back() {
    let chars = chars_of("h\u{e9}llo");
    assert_eq!(chars, vec!['h', '\u{e9}', 'l', 'l', 'o']);
    assert_eq!(string_of(&chars, 1, 4), "\u{e9}ll");
    assert_eq!(string_of(&chars, 2, 2), "");
    assert_eq!(string_of(&chars, 0, 5), "h\u{e9}llo");
}

#[test]
fn set_holds_each_path_once_in_order() {
    let mut set = PathSet::new();
    assert_eq!(set.len(), 0);
    assert!(set.insert(RelPath::new("b")));
    assert!(set.insert(RelPath::new("a/b")));
    assert!(set.insert(RelPath::new("a-b")));
    assert!(!set.insert(RelPath::new("a//b")));
    assert!(set.insert(RelPath::new("a")));
    assert_eq!(set.len(), 4);
    let found: Vec<&str> = (0..set.len()).map(|i| set.get(i).as_str()).collect();
    assert_eq!(found, vec!["a", "a/b", "a-b", "b"]);
    assert!(set.contains(&RelPath::new("a/b/")));
    assert!(set.contains(&RelPath::new("b")));
    assert!(!set.contains(&RelPath::new("c")));
    assert!(!set.contains(&RelPath::new("a/b/c")));
}

#[test]
fn set_as_queue() {
    let mut set = PathSet::new();
    set.insert(RelPath::new("y"));
    set.insert(RelPath::new("x"));
    let mut queue = set.to_queue();
    assert_eq!(queue.len(), 2);
    assert_eq!(queue.pop_front().unwrap().as_str(), "x");
    assert_eq!(queue.pop_front().unwrap().as_str(), "y");
    assert!(queue.pop_front().is_none());
    assert!(PathSet::new().to_queue().is_empty());
}
