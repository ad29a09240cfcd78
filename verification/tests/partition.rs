use dfa_minimizer::min::Partition;
use dfa_minimizer::min::PartitionMarks;

fn sets_of(partition: &Partition) -> Vec<Vec<usize>> {
    (0..partition.set_count()).map(|set| partition.set(set)).collect()
}

#[test]
fn new_partition_has_one_set() {
    let partition = Partition::new(4);
    assert_eq!(partition.set_count(), 1);
    assert_eq!(partition.set(0), vec![0, 1, 2, 3]);
    assert_eq!(partition.some_element_of(0), 0);
    for element in 0..4 {
        assert_eq!(partition.set_of(element), Some(0));
    }
}

#[test]
fn empty_universe_has_no_set() {
    let partition = Partition::new(0);
    assert_eq!(partition.set_count(), 0);
}

#[test]
fn mark_moves_element_to_the_marked_prefix() {
    let mut partition = Partition::new(5);
    let mut marks = PartitionMarks::new(5);
    let mut marking = partition.begin_marking(&mut marks);
    assert!(!marking.is_marked(3));
    marking.mark(3);
    assert!(marking.is_marked(3));
    assert!(!marking.is_marked(0));
    assert_eq!(marking.marked_in_set(0), vec![3]);
    assert_eq!(marking.partition().set(0), vec![3, 1, 2, 0, 4]);
    marking.mark(1);
    assert_eq!(marking.marked_in_set(0), vec![3, 1]);
    assert_eq!(marking.partition().set_count(), 1);
}

#[test]
fn mark_is_idempotent() {
    let mut partition = Partition::new(3);
    let mut marks = PartitionMarks::new(3);
    let mut marking = partition.begin_marking(&mut marks);
    marking.mark(2);
    let once = marking.partition().set(0);
    marking.mark(2);
    assert_eq!(marking.partition().set(0), once);
    assert_eq!(marking.marked_in_set(0), vec![2]);
}

#[test]
fn split_carves_the_smaller_marked_part() {
    let mut partition = Partition::new(5);
    let mut marks = PartitionMarks::new(5);
    {
        let mut marking = partition.begin_marking(&mut marks);
        marking.mark(4);
        marking.mark(2);
        marking.split_sets();
        assert_eq!(marking.marked_in_set(0), Vec::<usize>::new());
    }
    assert_eq!(partition.set_count(), 2);
    assert_eq!(partition.set(1), vec![4, 2]);
    assert_eq!(partition.set(0), vec![1, 3, 0]);
    assert_eq!(partition.set_of(4), Some(1));
    assert_eq!(partition.set_of(2), Some(1));
    assert_eq!(partition.set_of(0), Some(0));
}

#[test]
fn split_carves_the_smaller_unmarked_part() {
    let mut partition = Partition::new(5);
    let mut marks = PartitionMarks::new(5);
    {
        let mut marking = partition.begin_marking(&mut marks);
        marking.mark(0);
        marking.mark(1);
        marking.mark(2);
        marking.split_sets();
    }
    assert_eq!(partition.set_count(), 2);
    assert_eq!(partition.set(0), vec![0, 1, 2]);
    assert_eq!(partition.set(1), vec![3, 4]);
}

#[test]
fn split_of_equal_parts_carves_the_unmarked_part() {
    let mut partition = Partition::new(4);
    let mut marks = PartitionMarks::new(4);
    {
        let mut marking = partition.begin_marking(&mut marks);
        marking.mark(1);
        marking.mark(3);
        marking.split_sets();
    }
    assert_eq!(partition.set_count(), 2);
    assert_eq!(partition.set(0), vec![1, 3]);
    assert_eq!(partition.set(1), vec![2, 0]);
    assert_eq!(partition.set_of(1), Some(0));
    assert_eq!(partition.set_of(0), Some(1));
}

#[test]
fn split_leaves_a_fully_marked_set_alone() {
    let mut partition = Partition::new(2);
    let mut marks = PartitionMarks::new(2);
    {
        let mut marking = partition.begin_marking(&mut marks);
        marking.mark(0);
        marking.mark(1);
        marking.split_sets();
        assert!(!marking.is_marked(0));
    }
    assert_eq!(partition.set_count(), 1);
    assert_eq!(partition.set(0), vec![0, 1]);
}

#[test]
fn split_numbers_new_sets_in_the_order_of_first_marks() {
    let mut partition = Partition::new(6);
    let mut marks = PartitionMarks::new(6);
    {
        let mut marking = partition.begin_marking(&mut marks);
        marking.mark(0);
        marking.mark(1);
        marking.mark(2);
        marking.split_sets();
    }
    // sets: 0 = {0, 1, 2}, 1 = {3, 4, 5}
    assert_eq!(sets_of(&partition), vec![vec![0, 1, 2], vec![3, 4, 5]]);
    {
        let mut marking = partition.begin_marking(&mut marks);
        marking.mark(5);
        marking.mark(1);
        marking.split_sets();
    }
    assert_eq!(partition.set_count(), 4);
    assert_eq!(partition.set_of(5), Some(2));
    assert_eq!(partition.set_of(1), Some(3));
    assert_eq!(partition.set_of(3), Some(1));
    assert_eq!(partition.set_of(0), Some(0));
}

#[test]
fn set_count_never_goes_down() {
    let mut partition = Partition::new(8);
    let mut marks = PartitionMarks::new(8);
    let mut last = partition.set_count();
    for round in 0..4 {
        {
            let mut marking = partition.begin_marking(&mut marks);
            for element in 0..8 {
                if (element >> round) & 1 == 1 {
                    marking.mark(element);
                    assert_eq!(marking.partition().set_count(), last);
                }
            }
            marking.split_sets();
        }
        assert!(partition.set_count() >= last);
        last = partition.set_count();
    }
    assert_eq!(last, 8);
}

#[test]
fn discard_removes_the_unmarked_elements() {
    let mut partition = Partition::new(5);
    let mut marks = PartitionMarks::new(5);
    {
        let mut marking = partition.begin_marking(&mut marks);
        marking.mark(3);
        marking.mark(0);
        marking.discard_unmarked();
        assert!(!marking.is_marked(3));
        assert!(!marking.is_marked(1));
    }
    assert_eq!(partition.set_count(), 1);
    assert_eq!(partition.set(0), vec![3, 0]);
    assert_eq!(partition.set_of(3), Some(0));
    assert_eq!(partition.set_of(0), Some(0));
    assert_eq!(partition.set_of(1), None);
    assert_eq!(partition.set_of(2), None);
    assert_eq!(partition.set_of(4), None);
}

#[test]
fn discard_leaves_untouched_sets_alone() {
    let mut partition = Partition::new(3);
    let mut marks = PartitionMarks::new(3);
    {
        let mut marking = partition.begin_marking(&mut marks);
        marking.discard_unmarked();
    }
    assert_eq!(partition.set(0), vec![0, 1, 2]);
}

#[test]
fn marking_a_discarded_element_does_nothing() {
    let mut partition = Partition::new(3);
    let mut marks = PartitionMarks::new(3);
    let mut marking = partition.begin_marking(&mut marks);
    marking.mark(1);
    marking.discard_unmarked();
    marking.mark(0);
    assert!(!marking.is_marked(0));
    assert_eq!(marking.marked_in_set(0), Vec::<usize>::new());
    assert_eq!(marking.partition().set(0), vec![1]);
}

#[test]
fn partition_by_groups_in_the_order_of_the_keys() {
    let keys = vec![30, 10, 20, 10, 30, 20];
    let mut partition = Partition::new(6);
    let mut marks = PartitionMarks::new(6);
    {
        let mut marking = partition.begin_marking(&mut marks);
        marking.partition_by(|&element| keys[element]);
    }
    assert_eq!(sets_of(&partition), vec![vec![1, 3], vec![2, 5], vec![0, 4]]);
    assert_eq!(partition.set_of(1), Some(0));
    assert_eq!(partition.set_of(3), Some(0));
    assert_eq!(partition.set_of(2), Some(1));
    assert_eq!(partition.set_of(0), Some(2));
}

#[test]
fn partition_by_orders_negative_keys_first() {
    let keys = vec![5, -7, 0];
    let mut partition = Partition::new(3);
    let mut marks = PartitionMarks::new(3);
    {
        let mut marking = partition.begin_marking(&mut marks);
        marking.partition_by(|&element| keys[element]);
    }
    assert_eq!(sets_of(&partition), vec![vec![1], vec![2], vec![0]]);
}

#[test]
fn partition_by_keeps_discarded_elements_out() {
    let keys = vec![2, 1, 2, 1];
    let mut partition = Partition::new(4);
    let mut marks = PartitionMarks::new(4);
    {
        let mut marking = partition.begin_marking(&mut marks);
        marking.mark(0);
        marking.mark(1);
        marking.mark(2);
        marking.discard_unmarked();
        marking.partition_by(|&element| keys[element]);
    }
    assert_eq!(sets_of(&partition), vec![vec![1], vec![0, 2]]);
    assert_eq!(partition.set_of(3), None);
}

#[test]
fn partition_by_drops_the_marks() {
    let mut partition = Partition::new(3);
    let mut marks = PartitionMarks::new(3);
    let mut marking = partition.begin_marking(&mut marks);
    marking.mark(2);
    marking.partition_by(|_| 0);
    assert!(!marking.is_marked(2));
    assert_eq!(marking.partition().set(0), vec![0, 1, 2]);
    marking.mark(1);
    marking.split_sets();
    assert_eq!(marking.partition().set_count(), 2);
}

#[test]
fn partition_by_on_an_empty_universe() {
    let mut partition = Partition::new(0);
    let mut marks = PartitionMarks::new(0);
    {
        let mut marking = partition.begin_marking(&mut marks);
        marking.partition_by(|_| 0);
    }
    assert_eq!(partition.set_count(), 0);
}

#[test]
fn walk_hands_out_elements_marked_during_the_walk() {
    // marks each successor of a handed-out element: a chain 0 -> 1 -> 2 -> 3
    let mut partition = Partition::new(5);
    let mut marks = PartitionMarks::new(5);
    let mut marking = partition.begin_marking(&mut marks);
    marking.mark(0);
    let mut seen = Vec::new();
    {
        let mut walk = marking.marked_in_set_mut(0);
        while let Some(element) = walk.next() {
            seen.push(element);
            if element < 3 {
                walk.mark(element + 1);
            }
        }
        assert_eq!(walk.next(), None);
    }
    assert_eq!(seen, vec![0, 1, 2, 3]);
    assert!(marking.is_marked(3));
    assert!(!marking.is_marked(4));
    marking.discard_unmarked();
    assert_eq!(marking.partition().set_of(4), None);
    assert_eq!(marking.partition().set(0), vec![0, 1, 2, 3]);
}

#[test]
fn walk_over_a_set_without_marks_is_empty() {
    let mut partition = Partition::new(2);
    let mut marks = PartitionMarks::new(2);
    let mut marking = partition.begin_marking(&mut marks);
    let mut walk = marking.marked_in_set_mut(0);
    assert_eq!(walk.next(), None);
}

#[test]
fn marks_are_reused_between_partitions() {
    let mut first = Partition::new(3);
    let mut second = Partition::new(5);
    let mut marks = PartitionMarks::new(5);
    {
        let mut marking = first.begin_marking(&mut marks);
        marking.mark(1);
        marking.split_sets();
    }
    {
        let mut marking = second.begin_marking(&mut marks);
        assert!(!marking.is_marked(1));
        marking.mark(4);
        marking.split_sets();
    }
    assert_eq!(first.set_count(), 2);
    assert_eq!(second.set_count(), 2);
    assert_eq!(second.set(1), vec![4]);
}
