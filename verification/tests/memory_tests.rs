use memsim::memory::Algorithm;
use memsim::memory::INITIAL_MEMORY;
use memsim::memory::Memory;
use memsim::partition::Partition;
use memsim::process::Process;

#[test]
fn test_new() {
    let input = "1 0 100 2\n2 0 100 1";
    let result = Memory::new(input);
    match result {
        Ok(mem) => {
            assert_eq!(mem.size, INITIAL_MEMORY);
            assert_eq!(mem.runtime, 0);
            assert_eq!(mem.partitions.len(), 1);
            assert_eq!(mem.processes.len(), 2);
        },
        Err(e) => panic!("An error ocurred, {:?}", e),
    }
}

#[test]
fn new_rejects_a_malformed_line() {
    assert!(Memory::new("1 0 100 2\nbad line\n3 0 50 1").is_err());
    assert!(Memory::new("1 0 100\n").is_err());
}

#[test]
fn memory_test_update() {
    let input = "1 0 100 2\n3 0 100 1\n2 1 100 1";
    let result = Memory::new(input);
    match result {
        Ok(mut mem) => {
            assert_eq!(1, mem.partitions.len());
            assert_eq!(3, mem.processes.len());

            mem.update(Algorithm::BestFit);
            assert_eq!(3, mem.partitions.len());
            assert_eq!(3, mem.processes.len());

            mem.update(Algorithm::BestFit);
            assert_eq!(3, mem.partitions.len());
            assert_eq!(2, mem.processes.len());

            mem.update(Algorithm::BestFit);
            assert_eq!(1, mem.partitions.len());
            assert_eq!(0, mem.processes.len());
        },
        Err(e) => panic!("Could not complete test {:?}", e),
    }
}

#[test]
fn test_output() {
    let input = "1 0 100 2\n3 0 100 1\n2 1 100 1";
    let possible_mem = Memory::new(input);
    match possible_mem {
        Ok(mut mem) => {
            let mut lines: Vec<String> = Vec::new();
            while mem.has_processes_waiting() {
                mem.update(Algorithm::BestFit);
                lines.push(mem.trace_line());
            }

            assert_eq!("1 [0 P1 100] [100 P3 100] [200 Hole 1800] Return", lines[0]);
            assert_eq!("2 [0 P1 100] [100 P2 100] [200 Hole 1800] Return", lines[1]);
            assert_eq!("3 [0 Hole 2000] Return", lines[2]);
        },
        Err(e) => panic!("Could not complete test {:?}", e),
    }
}

#[test]
fn best_fit_scenario_traces() {
    let input = "1 0 100 2\n2 0 100 1\n3 1 100 1";
    let mut mem = Memory::new(input).unwrap();

    mem.update(Algorithm::BestFit);
    assert_eq!("1 [0 P1 100] [100 P2 100] [200 Hole 1800] Return", mem.trace_line());

    mem.update(Algorithm::BestFit);
    assert_eq!("2 [0 P1 100] [100 P3 100] [200 Hole 1800] Return", mem.trace_line());

    mem.update(Algorithm::BestFit);
    assert_eq!("3 [0 Hole 2000] Return", mem.trace_line());
    assert!(!mem.has_processes_waiting());
}

fn fragmented_memory() -> Memory {
    // occupied partitions with store indices 0 and 1 separate three holes of
    // sizes 300, 200 and 1100
    let store = vec![
        {
            let mut p = Process::from("1 0 150 5");
            p.assign();
            p
        },
        {
            let mut p = Process::from("2 0 250 5");
            p.assign();
            p
        },
    ];
    let partitions = vec![
        Partition { initial_adress: 0, size: 300, process: None },
        Partition { initial_adress: 300, size: 150, process: Some(0) },
        Partition { initial_adress: 450, size: 200, process: None },
        Partition { initial_adress: 650, size: 250, process: Some(1) },
        Partition { initial_adress: 900, size: 1100, process: None },
    ];
    Memory {
        size: INITIAL_MEMORY,
        processes: vec![0, 1],
        all_processes: store,
        partitions,
        runtime: 1,
    }
}

#[test]
fn best_fit_picks_the_smallest_qualifying_hole() {
    let mem = fragmented_memory();
    let proc = Process::from("3 0 180 1");
    assert_eq!(mem.get_partition_position(&proc, &Algorithm::BestFit), Some(2));
    let small = Process::from("4 0 10 1");
    assert_eq!(mem.get_partition_position(&small, &Algorithm::BestFit), Some(2));
    let huge = Process::from("5 0 1200 1");
    assert_eq!(mem.get_partition_position(&huge, &Algorithm::BestFit), None);
}

#[test]
fn worst_fit_picks_the_largest_hole() {
    let mem = fragmented_memory();
    let proc = Process::from("3 0 180 1");
    assert_eq!(mem.get_partition_position(&proc, &Algorithm::WorstFit), Some(4));
    let small = Process::from("4 0 10 1");
    assert_eq!(mem.get_partition_position(&small, &Algorithm::WorstFit), Some(4));
}

#[test]
fn ties_break_toward_the_lowest_address() {
    let mut mem = fragmented_memory();
    mem.partitions[4] = Partition { initial_adress: 900, size: 200, process: None };
    mem.partitions[0] = Partition { initial_adress: 0, size: 200, process: None };
    // holes now have sizes 200, 200 and 200: the first one wins either way
    mem.partitions[2] = Partition { initial_adress: 450, size: 200, process: None };
    let proc = Process::from("3 0 200 1");
    assert_eq!(mem.get_partition_position(&proc, &Algorithm::BestFit), Some(0));
    assert_eq!(mem.get_partition_position(&proc, &Algorithm::WorstFit), Some(0));
}

#[test]
fn coalescing_collapses_whole_runs_of_holes() {
    let mut mem = fragmented_memory();
    // free the second occupied partition: three adjacent holes follow it
    mem.partitions[3] = Partition { initial_adress: 650, size: 250, process: None };
    mem.merge_partitions();
    assert_eq!(mem.partitions.len(), 3);
    assert_eq!(mem.partitions[0].size, 300);
    assert_eq!(mem.partitions[1].size, 150);
    assert_eq!(mem.partitions[2].initial_adress, 450);
    assert_eq!(mem.partitions[2].size, 1550);
    assert!(mem.partitions[2].is_free());
}

#[test]
fn worst_fit_scenario() {
    let input = "1 0 1200 3\n2 1 100 2";
    let mut mem = Memory::new(input).unwrap();
    mem.update(Algorithm::WorstFit);
    assert_eq!("1 [0 P1 1200] [1200 Hole 800] Return", mem.trace_line());
    mem.update(Algorithm::WorstFit);
    assert_eq!("2 [0 P1 1200] [1200 P2 100] [1300 Hole 700] Return", mem.trace_line());
}

#[test]
fn get_partitions_returns_the_table_snapshot() {
    let mem = fragmented_memory();
    let snapshot = mem.get_partitions();
    assert_eq!(snapshot.len(), 5);
    assert_eq!(snapshot[1].get_initial_adress(), 300);
    assert_eq!(snapshot[1].is_free(), false);
    assert_eq!(snapshot[4].get_size(), 1100);
}

#[test]
fn satisfiable_demand_eventually_drains_the_backlog() {
    // the second process only fits after the first one ends and the memory
    // coalesces back into one hole
    let input = "1 0 2000 2\n2 0 2000 3";
    let mut mem = Memory::new(input).unwrap();
    let mut ticks = 0;
    while mem.has_processes_waiting() {
        assert!(ticks < 100, "the simulation should have drained by now");
        mem.update(Algorithm::BestFit);
        ticks += 1;
    }
    assert_eq!(ticks, 6);
    assert_eq!("6 [0 Hole 2000] Return", mem.trace_line());
}

#[test]
fn unsatisfiable_demand_stays_in_the_backlog() {
    // a process larger than the whole memory is never placed
    let input = "1 0 3000 2";
    let mut mem = Memory::new(input).unwrap();
    for _ in 0..5 {
        mem.update(Algorithm::BestFit);
        assert_eq!(mem.processes.len(), 1);
        assert_eq!(mem.partitions.len(), 1);
        assert!(mem.partitions[0].is_free());
    }
}
