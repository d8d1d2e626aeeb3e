use dir_shell::arena::Dirs;
use dir_shell::error::ShellError;
use dir_shell::node::{same_name, Dir};

fn nm(text: &str) -> [u8; 10] {
    let mut word = [b' '; 10];
    for (i, b) in text.bytes().enumerate() {
        word[i] = b;
    }
    word
}

fn kids_of(pool: &Dirs, slot: usize) -> Vec<usize> {
    pool.get(slot).unwrap().children()
}

#[test]
fn a_new_pool_holds_the_root_alone() {
    let pool = Dirs::new();
    assert_eq!(pool.next_free(), 1);
    assert!(pool.is_live(0));
    assert!(!pool.is_live(1));
    assert!(!pool.is_live(99));
    assert!(!pool.is_live(100));
    let root = pool.get(0).unwrap();
    assert_eq!(root.index, 0);
    assert_eq!(root.name, nm("root"));
    assert_eq!(root.parent_index, 0);
    assert_eq!(root.child_count, 0);
    assert_eq!(root.child_indexes, [0; 10]);
    assert!(pool.get(1).is_none());
}

#[test]
fn create_child_uses_the_slot_at_the_cursor() {
    let mut pool = Dirs::new();
    assert_eq!(pool.create_child(0, nm("alpha")), Ok(1));
    assert_eq!(pool.next_free(), 2);
    let made = pool.get(1).unwrap();
    assert_eq!(made.index, 1);
    assert_eq!(made.name, nm("alpha"));
    assert_eq!(made.parent_index, 0);
    assert_eq!(made.child_count, 0);
    assert_eq!(kids_of(&pool, 0), vec![1]);
}

#[test]
fn children_are_listed_once_in_the_order_of_creation() {
    let mut pool = Dirs::new();
    assert_eq!(pool.create_child(0, nm("c")), Ok(1));
    assert_eq!(pool.create_child(0, nm("a")), Ok(2));
    assert_eq!(pool.create_child(1, nm("x")), Ok(3));
    assert_eq!(pool.create_child(0, nm("b")), Ok(4));
    assert_eq!(kids_of(&pool, 0), vec![1, 2, 4]);
    assert_eq!(kids_of(&pool, 1), vec![3]);
    assert_eq!(pool.get(0).unwrap().child_indexes, [1, 2, 4, 0, 0, 0, 0, 0, 0, 0]);
}

#[test]
fn a_second_child_of_the_same_name_is_refused() {
    let mut pool = Dirs::new();
    assert_eq!(pool.create_child(0, nm("alpha")), Ok(1));
    assert_eq!(pool.create_child(0, nm("alpha")), Err(ShellError::DuplicateName));
    assert_eq!(pool.next_free(), 2);
    assert_eq!(kids_of(&pool, 0), vec![1]);
    assert!(!pool.is_live(2));
}

#[test]
fn names_are_compared_byte_for_byte() {
    let mut pool = Dirs::new();
    assert_eq!(pool.create_child(0, nm("alpha")), Ok(1));
    assert_eq!(pool.create_child(0, nm("Alpha")), Ok(2));
    assert_eq!(pool.create_child(0, nm("alph")), Ok(3));
    assert_eq!(pool.find_child(0, nm("alph")), Some(3));
    assert_eq!(pool.find_child(0, nm("alpha")), Some(1));
    assert_eq!(pool.find_child(0, nm("ALPHA")), None);
}

#[test]
fn the_same_name_may_stand_under_another_parent() {
    let mut pool = Dirs::new();
    assert_eq!(pool.create_child(0, nm("alpha")), Ok(1));
    assert_eq!(pool.create_child(1, nm("alpha")), Ok(2));
    assert_eq!(pool.find_child(0, nm("alpha")), Some(1));
    assert_eq!(pool.find_child(1, nm("alpha")), Some(2));
    assert_eq!(pool.find_child(2, nm("alpha")), None);
}

#[test]
fn create_child_under_an_empty_slot_is_refused() {
    let mut pool = Dirs::new();
    assert_eq!(pool.create_child(5, nm("alpha")), Err(ShellError::NotFound));
    assert_eq!(pool.create_child(100, nm("alpha")), Err(ShellError::NotFound));
    assert_eq!(pool.next_free(), 1);
}

#[test]
fn the_eleventh_child_is_refused() {
    let mut pool = Dirs::new();
    for i in 0..10u8 {
        assert_eq!(pool.create_child(0, nm(&format!("d{}", i))), Ok(i as usize + 1));
    }
    assert_eq!(pool.create_child(0, nm("more")), Err(ShellError::ArenaFull));
    assert_eq!(pool.next_free(), 11);
    assert_eq!(kids_of(&pool, 0), vec![1, 2, 3, 4, 5, 6, 7, 8, 9, 10]);
    assert_eq!(pool.create_child(1, nm("more")), Ok(11));
}

#[test]
fn the_pool_is_full_after_ninety_nine_directories() {
    let mut pool = Dirs::new();
    for i in 0..99usize {
        assert_eq!(pool.create_child(i, nm("d")), Ok(i + 1));
    }
    assert_eq!(pool.next_free(), 100);
    assert_eq!(pool.create_child(0, nm("e")), Err(ShellError::ArenaFull));
    assert_eq!(pool.create_child(99, nm("e")), Err(ShellError::ArenaFull));
    assert_eq!(pool.next_free(), 100);
    assert_eq!(pool.create_child(0, nm("d")), Err(ShellError::DuplicateName));
    let lines = pool.list_tree(0);
    assert_eq!(lines.len(), 100);
    assert_eq!(lines[99], (99, nm("d")));
}

#[test]
fn find_child_under_an_empty_slot_finds_nothing() {
    let pool = Dirs::new();
    assert_eq!(pool.find_child(3, nm("root")), None);
    assert_eq!(pool.find_child(1000, nm("root")), None);
    assert_eq!(pool.find_child(0, nm("root")), None);
}

#[test]
fn remove_subtree_of_a_leaf() {
    let mut pool = Dirs::new();
    pool.create_child(0, nm("a")).unwrap();
    pool.create_child(0, nm("b")).unwrap();
    pool.create_child(0, nm("c")).unwrap();
    assert_eq!(pool.remove_subtree(2), Ok(()));
    assert!(!pool.is_live(2));
    assert_eq!(kids_of(&pool, 0), vec![1, 3]);
    assert_eq!(pool.get(0).unwrap().child_indexes, [1, 3, 0, 0, 0, 0, 0, 0, 0, 0]);
    assert_eq!(pool.find_child(0, nm("b")), None);
    assert_eq!(pool.find_child(0, nm("c")), Some(3));
}

#[test]
fn remove_subtree_takes_every_descendant() {
    let mut pool = Dirs::new();
    let a = pool.create_child(0, nm("a")).unwrap();
    let b = pool.create_child(0, nm("b")).unwrap();
    let a1 = pool.create_child(a, nm("a1")).unwrap();
    let a2 = pool.create_child(a, nm("a2")).unwrap();
    let a11 = pool.create_child(a1, nm("a11")).unwrap();
    let a111 = pool.create_child(a11, nm("a111")).unwrap();
    let b1 = pool.create_child(b, nm("b1")).unwrap();
    assert_eq!(pool.remove_subtree(a), Ok(()));
    for gone in [a, a1, a2, a11, a111] {
        assert!(!pool.is_live(gone));
        assert!(pool.get(gone).is_none());
    }
    assert!(pool.is_live(b));
    assert!(pool.is_live(b1));
    assert_eq!(kids_of(&pool, 0), vec![b]);
    assert_eq!(pool.list_tree(0), vec![(0, nm("root")), (1, nm("b")), (2, nm("b1"))]);
    assert_eq!(pool.list_tree(a), vec![]);
}

#[test]
fn remove_subtree_of_the_last_of_ten_children() {
    let mut pool = Dirs::new();
    for i in 0..10u8 {
        pool.create_child(0, nm(&format!("d{}", i))).unwrap();
    }
    assert_eq!(pool.remove_subtree(10), Ok(()));
    assert_eq!(pool.get(0).unwrap().child_indexes, [1, 2, 3, 4, 5, 6, 7, 8, 9, 0]);
    assert_eq!(pool.remove_subtree(1), Ok(()));
    assert_eq!(pool.get(0).unwrap().child_indexes, [2, 3, 4, 5, 6, 7, 8, 9, 0, 0]);
    assert_eq!(pool.get(0).unwrap().child_count, 8);
}

#[test]
fn an_emptied_slot_is_stored_blank() {
    let mut pool = Dirs::new();
    let a = pool.create_child(0, nm("a")).unwrap();
    let a1 = pool.create_child(a, nm("a1")).unwrap();
    let a11 = pool.create_child(a1, nm("a11")).unwrap();
    assert_eq!(pool.stored(a1).unwrap().name, nm("a1"));
    assert_eq!(pool.stored(a1).unwrap().child_indexes, [a11, 0, 0, 0, 0, 0, 0, 0, 0, 0]);
    assert_eq!(pool.remove_subtree(a), Ok(()));
    for slot in [a, a1, a11, 50, 99] {
        let blank = pool.stored(slot).unwrap();
        assert_eq!(blank.index, 0);
        assert_eq!(blank.name, [b' '; 10]);
        assert_eq!(blank.parent_index, 0);
        assert_eq!(blank.child_count, 0);
        assert_eq!(blank.child_indexes, [0; 10]);
    }
    assert_eq!(pool.stored(0).unwrap().name, nm("root"));
    assert_eq!(pool.stored(0).unwrap().child_count, 0);
    assert!(pool.stored(100).is_none());
}

#[test]
fn the_root_and_an_empty_slot_cannot_be_removed() {
    let mut pool = Dirs::new();
    pool.create_child(0, nm("a")).unwrap();
    assert_eq!(pool.remove_subtree(0), Err(ShellError::NotFound));
    assert_eq!(pool.remove_subtree(2), Err(ShellError::NotFound));
    assert_eq!(pool.remove_subtree(100), Err(ShellError::NotFound));
    assert!(pool.is_live(0));
    assert_eq!(kids_of(&pool, 0), vec![1]);
}

#[test]
fn a_removed_slot_is_handed_out_again() {
    let mut pool = Dirs::new();
    pool.create_child(0, nm("a")).unwrap();
    assert_eq!(pool.next_free(), 2);
    assert_eq!(pool.remove_subtree(1), Ok(()));
    assert_eq!(pool.remove_subtree(1), Err(ShellError::NotFound));
    assert_eq!(pool.next_free(), 1);
    assert_eq!(pool.create_child(0, nm("b")), Ok(1));
    assert_eq!(pool.get(1).unwrap().name, nm("b"));
    assert_eq!(pool.find_child(0, nm("a")), None);
    assert_eq!(kids_of(&pool, 0), vec![1]);
    assert_eq!(pool.next_free(), 2);
}

#[test]
fn the_lowest_empty_slot_is_handed_out_first() {
    let mut pool = Dirs::new();
    let a = pool.create_child(0, nm("a")).unwrap();
    let b = pool.create_child(a, nm("b")).unwrap();
    let c = pool.create_child(0, nm("c")).unwrap();
    let d = pool.create_child(b, nm("d")).unwrap();
    let e = pool.create_child(c, nm("e")).unwrap();
    assert_eq!((a, b, c, d, e), (1, 2, 3, 4, 5));
    assert_eq!(pool.remove_subtree(b), Ok(()));
    assert_eq!(pool.next_free(), 2);
    assert_eq!(pool.create_child(e, nm("f")), Ok(2));
    assert_eq!(pool.next_free(), 4);
    assert_eq!(pool.create_child(2, nm("g")), Ok(4));
    assert_eq!(pool.next_free(), 6);
    assert_eq!(pool.create_child(0, nm("h")), Ok(6));
    assert_eq!(
        pool.list_tree(0),
        vec![
            (0, nm("root")),
            (1, nm("a")),
            (1, nm("c")),
            (2, nm("e")),
            (3, nm("f")),
            (4, nm("g")),
            (1, nm("h")),
        ]
    );
    assert_eq!(pool.remove_subtree(c), Ok(()));
    for gone in [3, 5, 2, 4] {
        assert!(!pool.is_live(gone));
    }
    assert_eq!(pool.next_free(), 2);
    assert_eq!(pool.list_tree(0), vec![(0, nm("root")), (1, nm("a")), (1, nm("h"))]);
}

#[test]
fn making_and_removing_over_and_over_does_not_fill_the_pool() {
    let mut pool = Dirs::new();
    pool.create_child(0, nm("keep")).unwrap();
    for round in 0..500 {
        let top = pool.create_child(0, nm("top")).unwrap();
        let sub = pool.create_child(top, nm("sub")).unwrap();
        assert_eq!((top, sub), (2, 3), "round {}", round);
        assert_eq!(pool.remove_subtree(top), Ok(()));
    }
    assert_eq!(pool.next_free(), 2);
    assert_eq!(kids_of(&pool, 0), vec![1]);
}

#[test]
fn a_full_pool_has_room_again_after_a_removal() {
    let mut pool = Dirs::new();
    for i in 0..99usize {
        assert_eq!(pool.create_child(i, nm("d")), Ok(i + 1));
    }
    assert_eq!(pool.create_child(0, nm("e")), Err(ShellError::ArenaFull));
    assert_eq!(pool.remove_subtree(90), Ok(()));
    assert_eq!(pool.next_free(), 90);
    assert_eq!(pool.list_tree(0).len(), 90);
    for i in 0..10usize {
        assert_eq!(pool.create_child(0, nm(&format!("e{}", i))), if i < 9 {
            Ok(90 + i)
        } else {
            Err(ShellError::ArenaFull)
        });
    }
    assert_eq!(pool.next_free(), 99);
    assert_eq!(pool.create_child(89, nm("last")), Ok(99));
    assert_eq!(pool.next_free(), 100);
    assert_eq!(pool.create_child(89, nm("none")), Err(ShellError::ArenaFull));
    assert_eq!(pool.list_tree(0).len(), 100);
}

#[test]
fn list_tree_of_depth_two() {
    let mut pool = Dirs::new();
    let kids = pool.create_child(0, nm("kids")).unwrap();
    pool.create_child(kids, nm("toys")).unwrap();
    assert_eq!(pool.list_tree(0), vec![(0, nm("root")), (1, nm("kids")), (2, nm("toys"))]);
    assert_eq!(pool.list_tree(kids), vec![(0, nm("kids")), (1, nm("toys"))]);
}

#[test]
fn list_tree_visits_a_directory_before_its_children() {
    let mut pool = Dirs::new();
    let a = pool.create_child(0, nm("a")).unwrap();
    let b = pool.create_child(0, nm("b")).unwrap();
    pool.create_child(b, nm("b1")).unwrap();
    pool.create_child(a, nm("a1")).unwrap();
    pool.create_child(a, nm("a2")).unwrap();
    assert_eq!(
        pool.list_tree(0),
        vec![
            (0, nm("root")),
            (1, nm("a")),
            (2, nm("a1")),
            (2, nm("a2")),
            (1, nm("b")),
            (2, nm("b1")),
        ]
    );
    assert_eq!(pool.list_tree(0), pool.list_tree(0));
}

#[test]
fn unwrap_dir_counts_the_levels_from_the_given_one() {
    let mut pool = Dirs::new();
    let kids = pool.create_child(0, nm("kids")).unwrap();
    let toys = pool.create_child(kids, nm("toys")).unwrap();
    pool.create_child(0, nm("work")).unwrap();
    assert_eq!(pool.unwrap_dir(0, 0), pool.list_tree(0));
    assert_eq!(
        pool.unwrap_dir(0, 3),
        vec![(3, nm("root")), (4, nm("kids")), (5, nm("toys")), (4, nm("work"))]
    );
    assert_eq!(pool.unwrap_dir(kids, 255), vec![(255, nm("kids")), (256, nm("toys"))]);
    assert_eq!(pool.unwrap_dir(toys, 7), vec![(7, nm("toys"))]);
    assert_eq!(pool.unwrap_dir(50, 7), vec![]);
}

#[test]
fn a_listing_has_a_line_for_each_directory_of_the_subtree_and_no_other() {
    let mut pool = Dirs::new();
    let a = pool.create_child(0, nm("a")).unwrap();
    let b = pool.create_child(0, nm("b")).unwrap();
    let a1 = pool.create_child(a, nm("a1")).unwrap();
    pool.create_child(b, nm("b1")).unwrap();
    pool.create_child(a1, nm("a11")).unwrap();
    pool.create_child(a, nm("a2")).unwrap();
    let lines = pool.list_tree(a);
    assert_eq!(lines, vec![(0, nm("a")), (1, nm("a1")), (2, nm("a11")), (1, nm("a2"))]);
    assert_eq!(pool.list_tree(0).len(), 7);
}

#[test]
fn list_tree_of_an_empty_slot_is_empty() {
    let pool = Dirs::new();
    assert_eq!(pool.list_tree(1), vec![]);
    assert_eq!(pool.list_tree(100), vec![]);
    assert_eq!(pool.list_tree(0), vec![(0, nm("root"))]);
}

#[test]
fn a_blank_directory_is_all_padding_and_zeros() {
    let blank = Dir::blank();
    assert_eq!(blank.index, 0);
    assert_eq!(blank.name, [b' '; 10]);
    assert_eq!(blank.parent_index, 0);
    assert_eq!(blank.child_count, 0);
    assert_eq!(blank.child_indexes, [0; 10]);
}

#[test]
fn a_childless_directory_has_what_it_was_given() {
    let dir = Dir::childless(7, nm("seven"), 3);
    assert_eq!(dir.index, 7);
    assert_eq!(dir.name, nm("seven"));
    assert_eq!(dir.parent_index, 3);
    assert_eq!(dir.children(), Vec::<usize>::new());
}

#[test]
fn move_child_indexes_closes_the_gap() {
    let mut dir = Dir::childless(1, nm("p"), 0);
    dir.child_indexes = [5, 6, 7, 8, 0, 0, 0, 0, 0, 0];
    dir.child_count = 4;
    dir.move_child_indexes(1);
    assert_eq!(dir.child_indexes, [5, 7, 8, 0, 0, 0, 0, 0, 0, 0]);
    assert_eq!(dir.child_count, 4);
    assert_eq!(dir.index, 1);
    assert_eq!(dir.name, nm("p"));
    assert_eq!(dir.parent_index, 0);
    dir.child_count = 3;
    dir.move_child_indexes(2);
    assert_eq!(dir.child_indexes, [5, 7, 0, 0, 0, 0, 0, 0, 0, 0]);
    assert_eq!(dir.child_count, 3);
    dir.child_count = 2;
    dir.move_child_indexes(0);
    assert_eq!(dir.child_indexes, [7, 0, 0, 0, 0, 0, 0, 0, 0, 0]);
    dir.child_count = 1;
    assert_eq!(dir.children(), vec![7]);
}

#[test]
fn move_child_indexes_at_or_behind_the_count_moves_only_padding() {
    let mut dir = Dir::childless(1, nm("p"), 0);
    dir.child_indexes = [5, 6, 7, 0, 0, 0, 0, 0, 0, 0];
    dir.child_count = 3;
    dir.move_child_indexes(3);
    assert_eq!(dir.child_indexes, [5, 6, 7, 0, 0, 0, 0, 0, 0, 0]);
    dir.move_child_indexes(9);
    assert_eq!(dir.child_indexes, [5, 6, 7, 0, 0, 0, 0, 0, 0, 0]);
    assert_eq!(dir.child_count, 3);
}

#[test]
fn move_child_indexes_of_a_full_table_clears_the_last_place() {
    let mut dir = Dir::childless(1, nm("p"), 0);
    dir.child_indexes = [11, 12, 13, 14, 15, 16, 17, 18, 19, 20];
    dir.child_count = 10;
    dir.move_child_indexes(0);
    assert_eq!(dir.child_indexes, [12, 13, 14, 15, 16, 17, 18, 19, 20, 0]);
    assert_eq!(dir.child_count, 10);
    dir.child_indexes = [11, 12, 13, 14, 15, 16, 17, 18, 19, 20];
    dir.move_child_indexes(9);
    assert_eq!(dir.child_indexes, [11, 12, 13, 14, 15, 16, 17, 18, 19, 0]);
}

#[test]
fn same_name_compares_every_byte() {
    assert!(same_name(&nm("kids"), &nm("kids")));
    assert!(!same_name(&nm("kids"), &nm("kidz")));
    assert!(!same_name(&nm("abcdefghij"), &nm("abcdefghiJ")));
    assert!(!same_name(&nm("kids"), &nm("kid")));
}
