use kollaps::common::ErrorKind;
use kollaps::messages::{frame, get_size, prepare_data_to_send, split_frame, EmulMessageKind, EventKind};

#[test]
fn emulation_opcodes() {
    assert_eq!(EmulMessageKind::FlowUpdate.event_2_opcode(), 0x0001);
    assert_eq!(EmulMessageKind::EmulStart.event_2_opcode(), 0x000A);
    assert_eq!(EmulMessageKind::opcode_2_event(0x0005, false), Ok(EmulMessageKind::TCDisconnect));
    assert_eq!(EmulMessageKind::opcode_2_event(0x0003, true), Ok(EmulMessageKind::TCInit));
    assert_eq!(EmulMessageKind::opcode_2_event(0x0003, false), Err(ErrorKind::OpcodeNotRecognized));
    assert_eq!(EmulMessageKind::opcode_2_event(0x0002, true), Err(ErrorKind::OpcodeNotRecognized));
    assert_eq!(EmulMessageKind::EmulStart.name(), "EmulationReady");
}

#[test]
fn cluster_opcodes() {
    assert_eq!(EventKind::CGraphUpdate.event_2_opcode(), 0x0000);
    assert_eq!(EventKind::CJQAbort.event_2_opcode(), 0x000D);
    assert_eq!(EventKind::opcode_2_event(0x0001, false), Ok(EventKind::CGraphGet));
    assert_eq!(EventKind::opcode_2_event(0x0009, true), Ok(EventKind::CGraphSend));
    assert_eq!(EventKind::opcode_2_event(0x0009, false), Err(ErrorKind::OpcodeNotRecognized));
    assert_eq!(EventKind::opcode_2_event(0x0008, true), Err(ErrorKind::OpcodeNotRecognized));
}

#[test]
fn frames() {
    let payload = b"{\"a\":1}".to_vec();
    let buf = frame(0x0104, &payload);
    assert_eq!(buf[0], 0x01);
    assert_eq!(buf[1], 0x04);
    let (op, p) = split_frame(&buf);
    assert_eq!(op, 0x0104);
    assert_eq!(p, Some(payload));
    let (op2, p2) = split_frame(&frame(7, &Vec::new()));
    assert_eq!(op2, 7);
    assert_eq!(p2, None);
}

#[test]
fn length_prefix() {
    let data = vec![1u8; 300];
    let buf = prepare_data_to_send(&data);
    assert_eq!(buf.len(), 302);
    assert_eq!(get_size(&buf[0..2].to_vec()), 300);
    assert_eq!(&buf[2..], &data[..]);
}
