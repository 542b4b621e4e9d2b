use erdtree::entry::Entry;
use erdtree::name::compare_names;
use erdtree::order::{Comparator, Order};
use std::cmp::Ordering;

fn entry(name: &str, is_directory: bool, size: Option<u64>) -> Entry {
    Entry { name: name.to_string(), is_directory, size }
}

#[test]
fn names_compare_by_first_difference() {
    assert_eq!(compare_names("nemesis.txt", "necronomicon.txt"), Ordering::Greater);
    assert_eq!(compare_names("necronomicon.txt", "nemesis.txt"), Ordering::Less);
    assert_eq!(compare_names("abd", "abcz"), Ordering::Greater);
}

#[test]
fn equal_names_compare_equal() {
    assert_eq!(compare_names("polaris.txt", "polaris.txt"), Ordering::Equal);
    assert_eq!(compare_names("", ""), Ordering::Equal);
}

#[test]
fn a_prefix_comes_before_what_extends_it() {
    assert_eq!(compare_names("abc", "abcd"), Ordering::Less);
    assert_eq!(compare_names("abcd", "abc"), Ordering::Greater);
    assert_eq!(compare_names("", "a"), Ordering::Less);
    assert_eq!(compare_names("a", ""), Ordering::Greater);
}

#[test]
fn names_compare_by_code_point_not_by_alphabet() {
    assert_eq!(compare_names("Zebra", "apple"), Ordering::Less);
    assert_eq!(compare_names("file10", "file9"), Ordering::Less);
    assert_eq!(compare_names("z", "\u{e9}"), Ordering::Less);
    assert_eq!(compare_names("\u{ff5e}", "\u{1f600}"), Ordering::Less);
    assert_eq!(compare_names("\u{1f600}", "\u{ff5e}"), Ordering::Greater);
}

#[test]
fn names_compare_as_strings_do() {
    let words = [
        "", "a", "A", "ab", "aB", "b", "dream_cycle", "the_yellow_king", "\u{e9}t\u{e9}",
        "\u{7f}", "\u{80}", "\u{7ff}", "\u{800}", "\u{ffff}", "\u{10000}", "\u{10ffff}", "a\u{300}",
        "nemesis.txt", "nemesis.txt.bak", " ", "~",
    ];
    for a in words.iter() {
        for b in words.iter() {
            assert_eq!(compare_names(a, b), a.cmp(b), "{:?} against {:?}", a, b);
        }
    }
}

#[test]
fn name_comparator_reads_the_name_alone() {
    let a = entry("alpha", false, Some(1));
    let b = entry("beta", true, Some(900));
    assert_eq!(Order::name_comparator(&a, &b), Ordering::Less);
    assert_eq!(Order::name_comparator(&b, &a), Ordering::Greater);
    let c = entry("alpha", true, None);
    assert_eq!(Order::name_comparator(&a, &c), Ordering::Equal);
}

#[test]
fn directory_sorts_before_file_whatever_the_names() {
    let d = entry("zzz", true, None);
    let f = entry("aaa", false, Some(10));
    assert_eq!(Order::name_dir_first_comparator(&d, &f), Ordering::Less);
    assert_eq!(Order::name_dir_first_comparator(&f, &d), Ordering::Greater);
}

#[test]
fn same_kind_falls_back_to_the_name() {
    let d1 = entry("dream_cycle", true, Some(308));
    let d2 = entry("the_yellow_king", true, Some(143));
    assert_eq!(Order::name_dir_first_comparator(&d1, &d2), Ordering::Less);
    assert_eq!(Order::name_dir_first_comparator(&d2, &d1), Ordering::Greater);
    let f1 = entry("nemesis.txt", false, Some(161));
    let f2 = entry("necronomicon.txt", false, Some(83));
    assert_eq!(Order::name_dir_first_comparator(&f1, &f2), Ordering::Greater);
    assert_eq!(Order::name_dir_first_comparator(&f2, &f1), Ordering::Less);
    let f3 = entry("nemesis.txt", false, None);
    assert_eq!(Order::name_dir_first_comparator(&f1, &f3), Ordering::Equal);
    let d3 = entry("dream_cycle", true, None);
    assert_eq!(Order::name_dir_first_comparator(&d1, &d3), Ordering::Equal);
}

#[test]
fn same_name_of_different_kind_is_not_a_tie() {
    let d = entry("same", true, None);
    let f = entry("same", false, None);
    assert_eq!(Order::name_dir_first_comparator(&d, &f), Ordering::Less);
    assert_eq!(Order::name_dir_first_comparator(&f, &d), Ordering::Greater);
}

#[test]
fn larger_size_sorts_first() {
    let big = entry("a", false, Some(308));
    let small = entry("b", false, Some(83));
    assert_eq!(Order::size_comparator(&big, &small), Ordering::Less);
    assert_eq!(Order::size_comparator(&small, &big), Ordering::Greater);
    let top = entry("c", false, Some(u64::MAX));
    assert_eq!(Order::size_comparator(&top, &big), Ordering::Less);
    assert_eq!(Order::size_comparator(&big, &top), Ordering::Greater);
}

#[test]
fn equal_sizes_tie_whatever_the_names() {
    let a = entry("a", true, Some(100));
    let b = entry("b", false, Some(100));
    assert_eq!(Order::size_comparator(&a, &b), Ordering::Equal);
    assert_eq!(Order::size_comparator(&b, &a), Ordering::Equal);
}

#[test]
fn missing_size_counts_as_zero() {
    let unknown = entry("a", false, None);
    let empty = entry("b", false, Some(0));
    let one = entry("c", false, Some(1));
    assert_eq!(Order::size_comparator(&unknown, &empty), Ordering::Equal);
    assert_eq!(Order::size_comparator(&empty, &unknown), Ordering::Equal);
    assert_eq!(Order::size_comparator(&unknown, &unknown), Ordering::Equal);
    assert_eq!(Order::size_comparator(&unknown, &one), Ordering::Greater);
    assert_eq!(Order::size_comparator(&one, &unknown), Ordering::Less);
}

#[test]
fn each_mode_selects_its_comparator() {
    assert_eq!(Order::Name.comparator(), Some(Comparator::ByName));
    assert_eq!(Order::Dir.comparator(), Some(Comparator::DirectoriesFirst));
    assert_eq!(Order::Size.comparator(), Some(Comparator::BySize));
    assert_eq!(Order::Unsorted.comparator(), None);
}

#[test]
fn a_comparator_compares_by_its_own_rule() {
    let d = entry("b", true, Some(1));
    let f = entry("a", false, Some(2));
    assert_eq!(Comparator::ByName.compare(&d, &f), Ordering::Greater);
    assert_eq!(Comparator::DirectoriesFirst.compare(&d, &f), Ordering::Less);
    assert_eq!(Comparator::BySize.compare(&d, &f), Ordering::Greater);
    assert_eq!(Comparator::ByName.compare(&d, &d), Ordering::Equal);
    assert_eq!(Comparator::DirectoriesFirst.compare(&f, &f), Ordering::Equal);
    assert_eq!(Comparator::BySize.compare(&f, &f), Ordering::Equal);
}

#[test]
fn comparing_does_not_change_the_entries() {
    let a = entry("a", false, None);
    let b = entry("b", true, Some(7));
    let (a0, b0) = (a.clone(), b.clone());
    for c in [Comparator::ByName, Comparator::DirectoriesFirst, Comparator::BySize] {
        let first = c.compare(&a, &b);
        let second = c.compare(&a, &b);
        assert_eq!(first, second);
    }
    assert_eq!(a, a0);
    assert_eq!(b, b0);
    assert_eq!(a.size, None);
}
