use qmdb::numa_info::{cpus_of_node, get_node_count, get_numa_node_for_cpu};

#[test]
fn the_node_count_stands_behind_its_label() {
    let output = "Architecture:  x86_64\nCPU(s):        8\nNUMA node(s):  2\nNUMA node0 CPU(s): 0-3\n";
    assert_eq!(get_node_count(output), 2);
    assert_eq!(get_node_count("NUMA node(s):\u{3000}+12\t\r\n"), 12);
    assert_eq!(get_node_count("NUMA node(s): 3:4"), 3);
}

#[test]
fn one_node_is_assumed() {
    assert_eq!(get_node_count(""), 1);
    assert_eq!(get_node_count("CPU(s): 8\n"), 1);
    assert_eq!(get_node_count("NUMA node(s): many\n"), 1);
    assert_eq!(get_node_count("NUMA node(s) 4\n"), 1);
    assert_eq!(get_node_count("NUMA node(s): -4\n"), 1);
    assert_eq!(
        get_node_count("NUMA node(s): 99999999999999999999999\nNUMA node(s): 6\n"),
        6
    );
}

#[test]
fn the_node_of_a_cpu_stands_in_its_row() {
    assert_eq!(get_numa_node_for_cpu("# header\n0\n1\n", 0), 0);
    assert_eq!(get_numa_node_for_cpu("# header\n0\n1\n", 1), 1);
    let output = "# comment\n# more\n3\n 1 \n# between\n2\r\nx\n4";
    assert_eq!(get_numa_node_for_cpu(output, 0), 3);
    assert_eq!(get_numa_node_for_cpu(output, 1), 1);
    assert_eq!(get_numa_node_for_cpu(output, 2), 2);
    assert_eq!(get_numa_node_for_cpu(output, 3), 0);
    assert_eq!(get_numa_node_for_cpu(output, 4), 4);
    assert_eq!(get_numa_node_for_cpu(output, 5), 0);
    assert_eq!(get_numa_node_for_cpu("", 0), 0);
}

#[test]
fn the_cpus_of_a_node_are_listed() {
    let output = "# CPU,Node\n0,0\n1,1\n 2 , 0 \n3,0,0\n4\n5,x\n6,1\n7,0";
    assert_eq!(cpus_of_node(output, 0), vec![0, 2, 7]);
    assert_eq!(cpus_of_node(output, 1), vec![1, 6]);
    assert_eq!(cpus_of_node(output, 2), Vec::<usize>::new());
}
