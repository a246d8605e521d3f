use pk2::format::entry::PackEntry;
use pk2::listing::listing_order;
use pk2::{ChainOffset, StreamOffset};

fn dir(name: &str) -> PackEntry {
    PackEntry::new_directory(name, ChainOffset(5000), None)
}

fn file(name: &str) -> PackEntry {
    PackEntry::new_file(name, StreamOffset(7000), 3, None)
}

#[test]
fn listing_puts_directories_first_sorted_by_name() {
    let entries = vec![
        dir("."),
        dir(".."),
        file("b.txt"),
        PackEntry::new_empty(None),
        dir("zeta"),
        file("a.txt"),
        dir("Alpha"),
        dir("alpha"),
    ];
    assert_eq!(listing_order(&entries), vec![6, 7, 4, 5, 2]);
}

#[test]
fn listing_keeps_alike_entries_in_stored_order() {
    let entries = vec![file("same"), dir("d"), file("same"), file("a")];
    assert_eq!(listing_order(&entries), vec![1, 3, 0, 2]);
}

#[test]
fn listing_of_an_empty_directory_is_empty() {
    let entries = vec![dir("."), dir(".."), PackEntry::new_empty(None)];
    assert_eq!(listing_order(&entries), Vec::<usize>::new());
}
