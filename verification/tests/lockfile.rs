use vex::lockfile::{lock_path, read, remove, update, LockTable};

#[test]
fn update_writes_sorted_lines() {
    let t = update("b=2\na=1", "c", "3");
    assert_eq!(t, "a=1\nb=2\nc=3");
}

#[test]
fn update_replaces_version() {
    let t = update("a=1\nb=2", "a", "9");
    assert_eq!(t, "a=9\nb=2");
}

#[test]
fn update_then_read_gives_version() {
    let t = update("x=0.1\n", "neovim", "0.9.5");
    let lock = read(&t);
    let again = vex::lockfile::write(&lock);
    assert_eq!(again, "neovim=0.9.5\nx=0.1");
}

#[test]
fn remove_drops_line() {
    let t = remove("a=1\nb=2\nc=3", "b");
    assert_eq!(t, "a=1\nc=3");
}

#[test]
fn remove_missing_keeps_others() {
    let t = remove("a=1", "zzz");
    assert_eq!(t, "a=1");
}

#[test]
fn read_splits_at_first_equals_and_ignores_bad_lines() {
    let lock = read("k=v=w\nnoequals\n=empty\n");
    assert_eq!(vex::lockfile::write(&lock), "=empty\nk=v=w");
}

#[test]
fn read_later_line_wins() {
    let lock = read("a=1\na=2");
    assert_eq!(vex::lockfile::write(&lock), "a=2");
}

#[test]
fn empty_table_writes_nothing() {
    assert_eq!(vex::lockfile::write(&LockTable::new()), "");
    assert_eq!(vex::lockfile::write(&read("")), "");
}

#[test]
fn sort_is_by_whole_line() {
    let t = update("a=1", "a-b", "2");
    assert_eq!(t, "a-b=2\na=1");
}

#[test]
fn lock_path_under_home() {
    assert_eq!(lock_path("/home/u"), "/home/u/.config/vex/lock.vex");
}

#[test]
fn write_is_the_same_for_any_insertion_order() {
    let mut a = LockTable::new();
    a.insert("b".chars().collect(), "2".chars().collect());
    a.insert("a".chars().collect(), "1".chars().collect());
    let mut b = LockTable::new();
    b.insert("a".chars().collect(), "1".chars().collect());
    b.insert("b".chars().collect(), "2".chars().collect());
    assert_eq!(vex::lockfile::write(&a), vex::lockfile::write(&b));
    assert_eq!(vex::lockfile::write(&a), "a=1\nb=2");
}
