use modmul_verifier::trace::{compute_indent, CycleTracer, TraceEvent, MARKERS_FOUND};

fn insn(t: &mut CycleTracer, cycle: u32, pc: u32, insn: u32) {
    t.handle_event(TraceEvent::InstructionStart { cycle, pc, insn });
}

fn write(t: &mut CycleTracer, addr: u32, value: u32) {
    t.handle_event(TraceEvent::MemorySet { addr, value });
}

/// Runs the marker sequence that announces the message channel at 0x3010,
/// the length channel at 0x3000 and the cycle channel at 0x4014.
fn announced() -> CycleTracer {
    let mut t = CycleTracer::new();
    insn(&mut t, 1, 0x1ffc, 0x0000_0013); // nop
    insn(&mut t, 2, 0x2000, 0xcdcd_d037); // lui zero, 0xcdcdd
    insn(&mut t, 3, 0x2004, 0xdcd0_0013); // li zero, -0x233
    insn(&mut t, 4, 0x2000, 0x0000_1017); // auipc zero, 0x1
    insn(&mut t, 5, 0x2004, 0x0100_0013); // li zero, 0x10
    insn(&mut t, 6, 0x2008, 0x0000_1017); // auipc zero, 0x1
    insn(&mut t, 7, 0x200c, 0xff80_0013); // li zero, -8
    insn(&mut t, 8, 0x2010, 0x0000_2017); // auipc zero, 0x2
    insn(&mut t, 9, 0x2014, 0x0040_0013); // li zero, 4
    t
}

#[test]
fn markers_locate_channels() {
    let t = announced();
    assert_eq!(t.init_state_machine, MARKERS_FOUND);
    assert_eq!(t.trace_msg_channel, 0x3010);
    assert_eq!(t.trace_msg_len_channel, 0x3000);
    assert_eq!(t.trace_cycle_channel, 0x4014);
    assert_eq!(t.num_instructions, 9);
    assert_eq!(t.latest_cycle_count, 9);
}

#[test]
fn marker_sequence_broken_resets() {
    let mut t = CycleTracer::new();
    insn(&mut t, 1, 0, 0x0000_0013);
    assert_eq!(t.init_state_machine, 1);
    insn(&mut t, 2, 4, 0x0000_0013);
    assert_eq!(t.init_state_machine, 0);
    insn(&mut t, 3, 8, 0x0000_0013);
    insn(&mut t, 4, 12, 0xdcd0_0013);
    assert_eq!(t.init_state_machine, 0);
    insn(&mut t, 5, 16, 0x0000_0033);
    assert_eq!(t.init_state_machine, 0);
}

#[test]
fn timed_section_becomes_record() {
    let mut t = announced();
    write(&mut t, 0x3010, u32::from_le_bytes(*b"Load"));
    write(&mut t, 0x3014, u32::from_le_bytes(*b"ing!"));
    write(&mut t, 0x3000, 7);
    assert_eq!(t.pending_records.len(), 1);
    assert_eq!(t.pending_records[0].name, "Loading");
    assert_eq!(t.pending_records[0].num_pending_records, 0);
    assert_eq!(t.pending_records[0].cur_num_instructions, 9);
    assert_eq!(t.pending_records[0].cur_num_cycles, 9);
    insn(&mut t, 20, 0x3000, 0x0000_0033);
    insn(&mut t, 30, 0x3004, 0x0000_0033);
    write(&mut t, 0x4014, 0);
    assert_eq!(t.pending_records.len(), 0);
    assert_eq!(t.finished_records.len(), 1);
    let r = &t.finished_records[0];
    assert_eq!(r.name, "Loading");
    assert_eq!(r.indents, 0);
    assert_eq!(r.num_instructions, 2);
    assert_eq!(r.num_cycles, 21);
    assert_eq!(r.start_significant_cycles, 0);
    assert_eq!(r.end_significant_cycles, 0);
}

#[test]
fn nested_sections_indent() {
    let mut t = announced();
    write(&mut t, 0x3010, u32::from_le_bytes(*b"outr"));
    write(&mut t, 0x3000, 4);
    write(&mut t, 0x3010, u32::from_le_bytes(*b"innr"));
    write(&mut t, 0x3000, 4);
    assert_eq!(t.pending_records[1].num_pending_records, 1);
    write(&mut t, 0x4014, 0);
    write(&mut t, 0x4014, 0);
    assert_eq!(t.finished_records[0].name, "innr");
    assert_eq!(t.finished_records[0].indents, 1);
    assert_eq!(t.finished_records[1].name, "outr");
    assert_eq!(t.finished_records[1].indents, 0);
    // a stray end with nothing pending is ignored
    write(&mut t, 0x4014, 0);
    assert_eq!(t.finished_records.len(), 2);
}

#[test]
fn invalid_utf8_name_is_replaced() {
    let mut t = announced();
    write(&mut t, 0x3010, 0x0000_ff41);
    write(&mut t, 0x3000, 2);
    assert_eq!(t.pending_records[0].name, "A\u{fffd}");
}

#[test]
fn slow_instruction_is_significant() {
    let mut t = announced();
    write(&mut t, 0x8000, 1);
    write(&mut t, 0x8004, 2);
    insn(&mut t, 9 + 1094, 0x5000, 0x0000_0073);
    assert_eq!(t.significant_cycles.len(), 1);
    let s = &t.significant_cycles[0];
    assert_eq!(s.latest_io_addrs, vec![0x8000, 0x8004]);
    assert_eq!(s.latest_accessed_new_pages, vec![0x20]);
    assert_eq!(s.pc, 0x5000);
    assert_eq!(s.current_cycle, 1103);
    assert_eq!(s.insn, 0x73);
    assert_eq!(s.previous_cycle, 9);
    assert!(t.latest_io_addrs.is_empty());
    insn(&mut t, 1103 + 1093, 0x5004, 0x0000_0073);
    assert_eq!(t.significant_cycles.len(), 1);
}

#[test]
fn pages_counted_once() {
    let mut t = CycleTracer::new();
    write(&mut t, 0x0400, 1);
    write(&mut t, 0x07fc, 1);
    write(&mut t, 0x0800, 1);
    assert_eq!(t.latest_accessed_new_pages, vec![1, 2]);
    assert_eq!(t.latest_io_addrs, vec![0x0400, 0x07fc, 0x0800]);
    assert!(t.page_accessed.contains(&1) && t.page_accessed.contains(&2));
}

#[test]
fn register_writes_change_nothing() {
    let mut t = announced();
    t.handle_event(TraceEvent::RegisterSet { idx: 3, value: 9 });
    assert_eq!(t.num_instructions, 9);
    assert!(t.latest_io_addrs.is_empty());
}

#[test]
fn message_bytes_written_little_endian() {
    let mut t = announced();
    write(&mut t, 0x3010 + 508, 0x4433_2211);
    assert_eq!(&t.msg_channel_buffer[508..512], &[0x11, 0x22, 0x33, 0x44]);
    // outside the channel nothing is copied
    write(&mut t, 0x3010 + 512, 0x5555_5555);
    assert_eq!(&t.msg_channel_buffer[512..516], &[0, 0, 0, 0]);
}

#[test]
fn indent_text() {
    assert_eq!(compute_indent(0), "");
    assert_eq!(compute_indent(1), "···· ");
    assert_eq!(compute_indent(2), "········ ");
}

#[test]
fn default_is_fresh() {
    let t = CycleTracer::default();
    assert_eq!(t.init_state_machine, 0);
    assert!(t.finished_records.is_empty());
    assert!(t.page_accessed.is_empty());
}
