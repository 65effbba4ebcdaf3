use memsim::partition::Partition;
use memsim::process::Process;

#[test]
fn test_divide() {
    let initial_partition = Partition::new_empty(0, 100);
    let mut process = Process::from("1 0 100 2");
    let result = initial_partition.divide(&mut process, 0);

    assert_eq!(result.0.initial_adress, 0);
    assert_eq!(result.0.size, 100);
    assert_eq!(result.0.is_free(), false);
    assert_eq!(result.1.is_none(), true);
}

#[test]
fn test_divide2() {
    let initial_partition = Partition::new_empty(0, 200);
    let mut process = Process::from("1 0 100 2");
    let result = initial_partition.divide(&mut process, 0);

    assert_eq!(result.0.initial_adress, 0);
    assert_eq!(result.0.size, 100);
    assert_eq!(result.0.is_free(), false);
    assert_eq!(result.1.as_ref().unwrap().initial_adress, 100);
    assert_eq!(result.1.as_ref().unwrap().size, 100);
    assert_eq!(result.1.unwrap().is_free(), true);
}

#[test]
fn test_representation() {
    let initial_partition = Partition::new_empty(0, 200);
    let mut process = Process::from("1 0 100 2");
    let result = initial_partition.divide(&mut process, 0);
    let store = vec![process];

    let p0 = result.0.repr(&store);
    let p1 = result.1.unwrap().repr(&store);

    assert_eq!("[0 P1 100]", p0);
    assert_eq!("[100 Hole 100]", p1);
}

#[test]
fn test_merge() {
    let mut p1 = Partition::new_empty(0, 100);
    let p2 = Partition::new_empty(101, 100);

    p1.merge(p2);
    assert_eq!(p1.initial_adress, 0);
    assert_eq!(p1.size, 200);
}

#[test]
fn partition_test_update() {
    let initial_partition = Partition::new_empty(0, 200);
    let mut process = Process::from("1 0 100 2");
    let mut result = initial_partition.divide(&mut process, 0);
    let mut store = vec![process];

    result.0.update(&mut store);
    assert_eq!(store[0].has_ended(), false);

    result.0.update(&mut store);
    assert_eq!(result.0.is_free(), true);
}

#[test]
fn merge_keeps_occupied_partition_unchanged() {
    let hole = Partition::new_empty(0, 100);
    let mut process = Process::from("4 0 100 1");
    let (mut occupied, _) = hole.divide(&mut process, 0);

    occupied.merge(Partition::new_empty(100, 50));
    assert_eq!(occupied.size, 100);
    assert_eq!(occupied.is_free(), false);
}

#[test]
fn divide_marks_the_process_assigned() {
    let hole = Partition::new_empty(0, 500);
    let mut process = Process::from("9 2 200 7");
    assert!(!process.is_assigned());
    let (occupied, remainder) = hole.divide(&mut process, 0);
    assert!(process.is_assigned());
    assert_eq!(occupied.get_size(), 200);
    assert_eq!(occupied.get_initial_adress(), 0);
    let rem = remainder.unwrap();
    assert_eq!(rem.get_initial_adress(), 200);
    assert_eq!(rem.get_size(), 300);
}
