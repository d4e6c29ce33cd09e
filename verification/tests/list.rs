use owning_list::{ListIntoIter, ListIter, OwningList};

fn to_vec(list: &OwningList<usize>) -> Vec<usize> {
    let mut out = Vec::new();
    let mut it = list.iter();
    while let Some(v) = it.next() {
        out.push(*v);
    }
    out
}

fn drain(list: OwningList<usize>) -> Vec<usize> {
    let mut out = Vec::new();
    let mut it = list.into_iter();
    while let Some(v) = it.next() {
        out.push(v);
    }
    out
}

#[test]
fn it_works() {
    let mut list = OwningList::<usize>::default();
    let one_ptr = list.prepend(1);
    assert_eq!(to_vec(&list), vec![1]);
    let two_ptr = list.prepend(2);
    assert_eq!(to_vec(&list), vec![2, 1]);
    let three_ptr = list.prepend(3);
    assert_eq!(to_vec(&list), vec![3, 2, 1]);
    list.remove_ptr(two_ptr);
    assert_eq!(to_vec(&list), vec![3, 1]);
    list.remove_ptr(three_ptr);
    assert_eq!(to_vec(&list), vec![1]);
    list.remove_ptr(one_ptr);
    assert_eq!(to_vec(&list), vec![]);
}

#[test]
fn move_to_head() {
    let mut list = OwningList::<usize>::default();
    let one_ptr = list.prepend(1);
    let two_ptr = list.prepend(2);
    assert_eq!(to_vec(&list), vec![2, 1]);
    list.remove_ptr(one_ptr);
    let _one_ptr = list.prepend(1);
    list.move_to_head(two_ptr);
}

#[test]
fn prepending_yields_reverse_order() {
    let mut list = OwningList::<usize>::default();
    list.prepend(1);
    list.prepend(2);
    list.prepend(3);
    assert_eq!(to_vec(&list), vec![3, 2, 1]);
}

#[test]
fn removing_middle_relinks_neighbors() {
    let mut list = OwningList::<usize>::default();
    list.prepend(1);
    let two_ptr = list.prepend(2);
    list.prepend(3);
    assert_eq!(list.remove_ptr(two_ptr), Some(2));
    assert_eq!(to_vec(&list), vec![3, 1]);
}

#[test]
fn removing_every_node_empties_the_list() {
    let mut list = OwningList::<usize>::default();
    let one_ptr = list.prepend(1);
    let two_ptr = list.prepend(2);
    let three_ptr = list.prepend(3);
    assert_eq!(list.remove_ptr(two_ptr), Some(2));
    assert_eq!(list.remove_ptr(three_ptr), Some(3));
    assert_eq!(to_vec(&list), vec![1]);
    assert_eq!(list.remove_ptr(one_ptr), Some(1));
    assert_eq!(to_vec(&list), Vec::<usize>::new());
}

#[test]
fn reinserting_after_removal_and_promoting() {
    let mut list = OwningList::<usize>::default();
    let one_ptr = list.prepend(1);
    let two_ptr = list.prepend(2);
    assert_eq!(to_vec(&list), vec![2, 1]);
    assert_eq!(list.remove_ptr(one_ptr), Some(1));
    list.prepend(1);
    assert_eq!(to_vec(&list), vec![1, 2]);
    list.move_to_head(two_ptr);
    assert_eq!(to_vec(&list), vec![2, 1]);
}

#[test]
fn moving_the_head_to_the_head_changes_nothing() {
    let mut list = OwningList::<usize>::default();
    list.prepend(1);
    list.prepend(2);
    let three_ptr = list.prepend(3);
    let before = to_vec(&list);
    list.move_to_head(three_ptr);
    assert_eq!(to_vec(&list), before);
    assert_eq!(to_vec(&list), vec![3, 2, 1]);
}

#[test]
fn moving_the_tail_to_the_head() {
    let mut list = OwningList::<usize>::default();
    let one_ptr = list.prepend(1);
    list.prepend(2);
    list.prepend(3);
    list.move_to_head(one_ptr);
    assert_eq!(to_vec(&list), vec![1, 3, 2]);
}

#[test]
fn consuming_iteration_matches_borrowing_iteration() {
    let mut list = OwningList::<usize>::default();
    let one_ptr = list.prepend(1);
    list.prepend(2);
    let three_ptr = list.prepend(3);
    list.remove_ptr(one_ptr);
    list.prepend(4);
    list.move_to_head(three_ptr);
    let borrowed = to_vec(&list);
    let owned = drain(list);
    assert_eq!(owned, borrowed);
    assert_eq!(owned, vec![3, 4, 2]);
}

#[test]
fn removing_the_head_promotes_its_successor() {
    let mut list = OwningList::<usize>::default();
    list.prepend(1);
    list.prepend(2);
    let three_ptr = list.prepend(3);
    assert_eq!(list.remove_ptr(three_ptr), Some(3));
    assert_eq!(to_vec(&list), vec![2, 1]);
}

#[test]
fn removing_the_tail_detaches_it() {
    let mut list = OwningList::<usize>::default();
    let one_ptr = list.prepend(1);
    list.prepend(2);
    list.prepend(3);
    assert_eq!(list.remove_ptr(one_ptr), Some(1));
    assert_eq!(to_vec(&list), vec![3, 2]);
}

#[test]
fn a_removed_handle_goes_stale() {
    let mut list = OwningList::<usize>::default();
    let one_ptr = list.prepend(1);
    let two_ptr = list.prepend(2);
    assert_eq!(list.remove_ptr(one_ptr), Some(1));
    assert_eq!(list.remove_ptr(one_ptr), None);
    list.move_to_head(one_ptr);
    assert_eq!(to_vec(&list), vec![2]);
    assert_eq!(list.remove_ptr(two_ptr), Some(2));
}

#[test]
fn a_stale_handle_does_not_alias_a_reused_slot() {
    let mut list = OwningList::<usize>::default();
    let one_ptr = list.prepend(1);
    assert_eq!(list.remove_ptr(one_ptr), Some(1));
    // the freed slot is reused, under a new generation
    list.prepend(9);
    assert_eq!(list.remove_ptr(one_ptr), None);
    assert_eq!(to_vec(&list), vec![9]);
}

#[test]
fn an_empty_list_yields_nothing() {
    let list = OwningList::<usize>::default();
    assert_eq!(to_vec(&list), Vec::<usize>::new());
    let mut it = list.into_iter();
    assert_eq!(it.next(), None);
    assert_eq!(it.next(), None);
}

#[test]
fn borrowing_iteration_restarts_from_the_head() {
    let mut list = OwningList::<usize>::default();
    list.prepend(1);
    list.prepend(2);
    assert_eq!(to_vec(&list), vec![2, 1]);
    assert_eq!(to_vec(&list), vec![2, 1]);
}

#[test]
fn iterators_can_be_built_directly() {
    let mut list = OwningList::<usize>::default();
    list.prepend(1);
    list.prepend(2);
    let mut it = ListIter::new(&list);
    assert_eq!(it.next(), Some(&2));
    assert_eq!(it.next(), Some(&1));
    assert_eq!(it.next(), None);
    let mut ci = ListIntoIter::new(list);
    assert_eq!(ci.next(), Some(2));
    assert_eq!(ci.next(), Some(1));
    assert_eq!(ci.next(), None);
}

#[test]
fn owned_values_move_through_the_list() {
    let mut list = OwningList::<String>::default();
    let hello = list.prepend(String::from("hello"));
    list.prepend(String::from("world"));
    list.move_to_head(hello);
    assert_eq!(list.remove_ptr(hello), Some(String::from("hello")));
    let mut it = list.into_iter();
    assert_eq!(it.next(), Some(String::from("world")));
    assert_eq!(it.next(), None);
}
