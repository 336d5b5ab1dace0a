use l3ms::telemetry::{
    aggregate, command_name, descendant_pids, disk_free_mib, find_process_named, gpu_memory_fits,
    parse_gpu_memory, parse_nvidia_smi_gpu_query, parse_proc_io, parse_proc_meminfo,
    parse_proc_net_dev, parse_process_table, process_group_pids, reads_as_fraction, rss_fits,
    server_io, GpuTelemetry, ProcessSample, ResourceSnapshot, SystemTelemetrySnapshot,
};
use std::collections::HashSet;

fn sample_processes() -> Vec<ProcessSample> {
    parse_process_table(
        " 100 1 100 1.5 1024 /usr/bin/llama-swap\n\
         101 100 100 12.5 4096 /opt/llama-server\n\
         102 101 100 3.0 2048 /opt/worker\n\
         200 1 200 99.0 9999 /bin/other\n\
         malformed row\n",
    )
}

#[test]
fn parses_process_rows_and_skips_invalid_input() {
    let processes = sample_processes();
    assert_eq!(processes.len(), 4);
    assert_eq!(processes[0].pid, 100);
    assert_eq!(processes[1].cpu_percent.parse::<f64>().unwrap(), 12.5);
    assert_eq!(processes[2].command, "/opt/worker");
}

#[test]
fn discovers_all_descendant_generations() {
    let descendants = descendant_pids(&sample_processes(), 100);
    assert_eq!(descendants, HashSet::from([101, 102]));
}

#[test]
fn aggregates_only_selected_processes() {
    let processes = sample_processes();
    let totals = aggregate(&processes, &HashSet::from([100, 101, 102]));
    let cpu_percent: f64 = totals
        .cpu_percents
        .iter()
        .map(|text| text.parse::<f64>().unwrap())
        .sum();
    let snapshot = ResourceSnapshot {
        process_count: totals.process_count,
        cpu_percent: format!("{cpu_percent:.1}"),
        rss_kib: totals.rss_kib,
        ram_mib: format!("{:.1}", totals.rss_kib as f64 / 1024.0),
        gpu_memory_mib: None,
        disk_free_mib: None,
        network_rx_bytes: None,
        network_tx_bytes: None,
    };
    assert_eq!(snapshot.process_count, 3);
    assert!((cpu_percent - 17.0).abs() < f64::EPSILON);
    assert_eq!(snapshot.rss_kib, 7168);
    assert_eq!(
        snapshot.render("procs", Some(65)),
        "Resources: procs=3 cpu=17.0% ram=7.0 MiB gpu=n/a disk=n/a net=n/a elapsed=01:05"
    );
}

#[test]
fn sums_nvidia_rows_for_selected_pids() {
    let pids = HashSet::from([101, 102]);
    assert_eq!(
        parse_gpu_memory("101, 1000\n102, 250\n200, 999\nbad\n", &pids),
        1250
    );
}

#[test]
fn matches_executable_basename() {
    assert_eq!(command_name("/opt/bin/llama-swap"), "llama-swap");
    assert_eq!(command_name("llama-swap"), "llama-swap");
}

#[test]
fn parses_proc_network_counters() {
    let text = "Inter-| Receive | Transmit\n face |bytes packets errs drop fifo frame compressed multicast|bytes packets errs drop fifo colls carrier compressed\n eth0: 100 1 0 0 0 0 0 0 200 2 0 0 0 0 0 0\n";
    assert_eq!(parse_proc_net_dev(text), Some((100, 200)));
}

#[test]
fn parses_nvidia_smi_gpu_query() {
    let sample = "NVIDIA GeForce RTX 4070, 12282, 11678, 225, 42, 15, 44, 115.5\n";
    let gpu = parse_nvidia_smi_gpu_query(sample).expect("valid gpu parse");
    assert_eq!(gpu.name, "NVIDIA GeForce RTX 4070");
    assert_eq!(gpu.total_vram_mib, 12282);
    assert_eq!(gpu.used_vram_mib, 11678);
    assert_eq!(gpu.free_vram_mib, 225);
    assert_eq!(gpu.gpu_util_percent, 42);
    assert_eq!(gpu.mem_util_percent, 15);
    assert_eq!(gpu.temperature_c, 44);
    let power_watts: f64 = gpu.power_watts.unwrap().parse().unwrap();
    assert!((power_watts - 115.5).abs() < f64::EPSILON);
}

#[test]
fn parses_proc_meminfo() {
    let text = "MemTotal:       64629304 kB\n\
                MemFree:          886480 kB\n\
                MemAvailable:   55785092 kB\n\
                SwapTotal:      20971516 kB\n\
                SwapFree:       15728636 kB\n";
    let mem = parse_proc_meminfo(text).expect("valid meminfo parse");
    assert_eq!(mem.total_ram_mib, 63114);
    assert_eq!(mem.available_ram_mib, 54477);
    assert_eq!(mem.used_ram_mib, 8637);
    assert_eq!(mem.total_swap_mib, 20479);
    assert_eq!(mem.free_swap_mib, 15359);
    assert_eq!(mem.used_swap_mib, 5120);
}

#[test]
fn parses_proc_io() {
    let text = "rchar: 122905434\n\
                wchar: 5192\n\
                syscr: 30397\n\
                syscw: 150\n\
                read_bytes: 25495613440\n\
                write_bytes: 24576\n";
    assert_eq!(parse_proc_io(text), Some(25495613440));
}

#[test]
fn fractions_are_those_of_the_standard_library() {
    let texts = [
        "", "+", "-", ".", "1", "1.", ".5", "1.5", "-1.5", "+1.5", "1..5", "1.5.2", "1e5", "1E5",
        "1e", "1e+", "1e+5", "1e-5", "1e5.0", "e5", ".e5", "1.e5", ".5e5", "inf", "INF", "-Inf",
        "infinity", "+InFiNiTy", "infinit", "nan", "NaN", "-nan", "nano", "0x10", "1_000", "１",
        " 1", "1 ", "--1", "1f", "1e5e5", "00.00", "1e99999",
    ];
    for text in texts {
        let chars: Vec<char> = text.chars().collect();
        assert_eq!(
            reads_as_fraction(&chars),
            text.parse::<f64>().is_ok(),
            "{text:?}"
        );
    }
}

#[test]
fn process_rows_need_every_field() {
    let table = "1 2 3 4.0 5\n1 2 3 x 5 cmd\n-1 2 3 4 5 cmd\n1 2 3 4 5 a  b\tc\n4294967296 1 1 1 1 x\n";
    let processes = parse_process_table(table);
    assert_eq!(processes.len(), 1);
    assert_eq!(processes[0].command, "a b c");
    assert_eq!(processes[0].cpu_percent, "4");
    assert_eq!(processes[0].rss_kib, 5);
}

#[test]
fn descendants_are_found_in_any_order() {
    let table = "5 4 1 0 1 e\n4 3 1 0 1 d\n3 2 1 0 1 c\n2 2 1 0 1 b\n9 8 1 0 1 x\n8 9 1 0 1 y\n";
    let processes = parse_process_table(table);
    assert_eq!(descendant_pids(&processes, 3), HashSet::from([4, 5]));
    assert_eq!(descendant_pids(&processes, 2), HashSet::from([2, 3, 4, 5]));
    assert_eq!(descendant_pids(&processes, 9), HashSet::from([8, 9]));
    assert!(descendant_pids(&processes, 7).is_empty());
}

#[test]
fn processes_are_selected_by_group_and_name() {
    let processes = sample_processes();
    assert_eq!(
        process_group_pids(&processes, 100),
        HashSet::from([100, 101, 102])
    );
    assert!(process_group_pids(&processes, 5).is_empty());
    assert_eq!(find_process_named(&processes, "worker"), Some(102));
    assert_eq!(find_process_named(&processes, "opt"), None);
    assert_eq!(command_name("/opt/"), "");
}

#[test]
fn disks_report_their_free_space() {
    let listing = "Filesystem 1K-blocks Used Available Use% Mounted\nshort line\n/dev/sda 100 50 20481 1% /\n";
    assert_eq!(disk_free_mib(listing), Some(20));
    assert_eq!(disk_free_mib("h\na b c x\n"), None);
    assert_eq!(disk_free_mib(""), None);
    assert_eq!(disk_free_mib("a b c 4096"), None);
}

#[test]
fn network_counters_saturate_and_skip() {
    let head = "a\nb\n";
    let big = u64::MAX;
    let text = format!("{head} x: {big} 0 0 0 0 0 0 0 1 0\n y: 5 0 0 0 0 0 0 0 2\n z: 1 2 3\n");
    assert_eq!(parse_proc_net_dev(&text), Some((u64::MAX, 3)));
    assert_eq!(parse_proc_net_dev(&format!("{head}x: 1 2 3\n")), None);
    assert_eq!(parse_proc_net_dev(&format!("{text}no colon\n")), None);
    assert_eq!(parse_proc_net_dev(head), None);
    assert_eq!(
        parse_proc_net_dev(&format!("{head}x: a 0 0 0 0 0 0 0 1\n")),
        None
    );
}

#[test]
fn devices_without_name_and_size_are_passed_over() {
    let gpu =
        parse_nvidia_smi_gpu_query("x\n, 0, 1, 2, 3, 4, 5, 6\n , 7, x, 2, 3, 99999999999, 5, n/a\n")
            .unwrap();
    assert_eq!(gpu.name, "");
    assert_eq!(gpu.total_vram_mib, 7);
    assert_eq!(gpu.used_vram_mib, 0);
    assert_eq!(gpu.mem_util_percent, 0);
    assert_eq!(gpu.power_watts, None);
    assert_eq!(parse_nvidia_smi_gpu_query(""), None);
    assert_eq!(GpuTelemetry::default().power_watts, None);
}

#[test]
fn memory_needs_a_total() {
    assert_eq!(parse_proc_meminfo("MemFree: 5 kB\n"), None);
    assert_eq!(parse_proc_meminfo("MemTotal: x\n"), None);
    let mem = parse_proc_meminfo("MemTotal: 1024\n MemTotal : 4096 kB\nMemAvailable: 9999999\n")
        .unwrap();
    assert_eq!(mem.total_ram_mib, 4);
    assert_eq!(mem.used_ram_mib, 0);
    assert_eq!(mem.used_swap_mib, 0);
}

#[test]
fn reads_are_counted_since_the_last_time() {
    let text = "read_bytes: 500\n";
    let io = server_io(7, text, Some(450)).unwrap();
    assert_eq!(io.pid, 7);
    assert_eq!(io.read_bytes, 500);
    assert_eq!(io.read_delta_bytes, Some(50));
    assert_eq!(server_io(7, text, Some(501)).unwrap().read_delta_bytes, Some(0));
    assert_eq!(server_io(7, text, None).unwrap().read_delta_bytes, None);
    assert_eq!(server_io(7, "read_bytes: x\nread_bytes: 5\n", None), None);
    assert_eq!(server_io(7, "", None), None);
}

#[test]
fn snapshots_render_what_is_known() {
    let snapshot = ResourceSnapshot {
        process_count: 0,
        cpu_percent: "0.0".into(),
        rss_kib: 0,
        ram_mib: "0.0".into(),
        gpu_memory_mib: Some(12),
        disk_free_mib: Some(34),
        network_rx_bytes: Some(56),
        network_tx_bytes: Some(78),
    };
    assert_eq!(
        snapshot.render("jobs", None),
        "Resources: jobs=0 cpu=0.0% ram=0.0 MiB gpu=12 MiB disk=34 MiB net=rx=56B tx=78B"
    );
    assert!(snapshot
        .render("jobs", Some(6000))
        .ends_with(" elapsed=100:00"));
    let half = ResourceSnapshot {
        network_tx_bytes: None,
        ..snapshot
    };
    assert!(half.render("jobs", None).ends_with(" net=n/a"));
    assert_eq!(SystemTelemetrySnapshot::default().resource_summary, "");
}

#[test]
fn totals_that_do_not_fit_are_noticed() {
    let pids = HashSet::from([1, 2]);
    let full = format!("1, {}\n3, 5\nbad\n", u64::MAX);
    assert!(gpu_memory_fits(&full, &pids));
    assert_eq!(parse_gpu_memory(&full, &pids), u64::MAX);
    assert!(!gpu_memory_fits(&format!("{full}2, 1\n"), &pids));

    let table = format!("1 0 1 0.0 {} a\n2 0 2 0.0 1 b\n", u64::MAX);
    let processes = parse_process_table(&table);
    assert!(rss_fits(&processes, &HashSet::from([1])));
    assert!(rss_fits(&processes, &HashSet::from([2])));
    assert!(!rss_fits(&processes, &pids));
}
