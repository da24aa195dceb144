use remote_agent::process::{process_output, ProcessManager};

#[test]
fn started_processes_are_listed_by_id() {
    let mut m: ProcessManager<&str> = ProcessManager::new();
    let info = m.start_process(30, "sleep".to_string(), "h30");
    assert_eq!(info.pid, 30);
    assert!(info.alive);
    assert_eq!(info.command.as_deref(), Some("sleep"));
    m.start_process(10, "ls".to_string(), "h10");
    m.start_process(20, "cat".to_string(), "h20");
    assert_eq!(m.len(), 3);
    let list = m.list_processes(&vec![true, false, true]);
    let pids: Vec<i64> = list.iter().map(|p| p.pid).collect();
    assert_eq!(pids, vec![10, 20, 30]);
    assert!(list[0].alive && !list[1].alive && list[2].alive);
    assert_eq!(list[1].command.as_deref(), Some("cat"));
    assert_eq!(*m.handle_at(0), "h10");
}

#[test]
fn same_id_replaces_the_entry() {
    let mut m: ProcessManager<u8> = ProcessManager::new();
    m.start_process(5, "a".to_string(), 1);
    m.start_process(5, "b".to_string(), 2);
    assert_eq!(m.len(), 1);
    let p = m.find(5).unwrap();
    assert_eq!(p.command, "b");
    assert_eq!(p.handle, 2);
}

#[test]
fn unknown_process_is_reported() {
    let mut m: ProcessManager<u8> = ProcessManager::new();
    assert!(m.find(7).is_none());
    assert_eq!(m.output_source(7).unwrap_err().message, "Process not found: 7");
    assert_eq!(m.output_source(-42).unwrap_err().message, "Process not found: -42");
    m.start_process(7, "x".to_string(), 9);
    assert_eq!(*m.output_source(7).unwrap(), 9);
}

#[test]
fn output_reports_only_streams_with_data() {
    let o = process_output(None, vec![], vec![]);
    assert!(o.stdout_data.is_none() && o.stderr_data.is_none() && o.exit_code.is_none());
    let o = process_output(Some(3), b"out".to_vec(), vec![]);
    assert_eq!(o.stdout_data, Some(b"out".to_vec()));
    assert!(o.stderr_data.is_none());
    assert_eq!(o.exit_code, Some(3));
    let o = process_output(Some(0), vec![], b"err".to_vec());
    assert_eq!(o.stderr_data, Some(b"err".to_vec()));
}
