use thermo_logger::ingest::{
    IngestAction, IngestEvent, IngestPhase, Ingestor, LineAssembler, LineOutcome,
};
use thermo_logger::protocol::ProtocolParseError;
use thermo_logger::reading::Reading;
use thermo_logger::store::ChannelStore;
use thermo_logger::{BAUD_RATE, READ_TIMEOUT_MS};

#[test]
fn assembler_joins_chunks_into_lines() {
    let mut a = LineAssembler::new();
    assert!(a.push_bytes(b"1000,21").is_empty());
    let lines = a.push_bytes(b".5C\r2000,1C\r30");
    assert_eq!(lines, vec![b"1000,21.5C".to_vec(), b"2000,1C".to_vec()]);
    let lines = a.push_bytes(b"00\r\r");
    assert_eq!(lines, vec![b"3000".to_vec(), Vec::new()]);
    assert!(a.push_bytes(b"").is_empty());
}

#[test]
fn handshake_waits_for_a_port() {
    let mut g = Ingestor::new();
    assert_eq!(g.current_phase(), IngestPhase::AwaitingPortSelection);
    let a = g.handle(IngestEvent::SelectionSeen(String::new()));
    assert!(matches!(a, IngestAction::WaitForSelection));
    assert_eq!(g.current_phase(), IngestPhase::AwaitingPortSelection);
    let a = g.handle(IngestEvent::DataRead);
    assert!(matches!(a, IngestAction::WaitForSelection));
    match g.handle(IngestEvent::SelectionSeen("/dev/ttyUSB0".to_string())) {
        IngestAction::OpenPort { name, baud_rate, timeout_ms } => {
            assert_eq!(name, "/dev/ttyUSB0");
            assert_eq!(baud_rate, BAUD_RATE);
            assert_eq!(baud_rate, 9600);
            assert_eq!(timeout_ms, READ_TIMEOUT_MS);
        }
        other => panic!("expected to open the port, got {:?}", other),
    }
    assert_eq!(g.current_phase(), IngestPhase::Connected);
    assert!(matches!(g.handle(IngestEvent::PortOpened), IngestAction::Read));
    assert_eq!(g.current_phase(), IngestPhase::Streaming);
}

#[test]
fn streaming_retries_and_reports_errors() {
    let mut g = Ingestor::new();
    g.handle(IngestEvent::SelectionSeen("COM3".to_string()));
    g.handle(IngestEvent::PortOpened);
    assert!(matches!(g.handle(IngestEvent::ReadTimedOut), IngestAction::Read));
    assert!(matches!(g.handle(IngestEvent::DataRead), IngestAction::Read));
    assert!(matches!(g.handle(IngestEvent::ReadFailed), IngestAction::ReportErrorThenRead));
    assert!(matches!(g.handle(IngestEvent::SelectionSeen("COM4".to_string())), IngestAction::Read));
    assert_eq!(g.current_phase(), IngestPhase::Streaming);
}

#[test]
fn failed_open_stops_ingestion() {
    let mut g = Ingestor::new();
    g.handle(IngestEvent::SelectionSeen("COM3".to_string()));
    assert!(matches!(g.handle(IngestEvent::PortOpenFailed), IngestAction::Stop));
    assert_eq!(g.current_phase(), IngestPhase::Stopped);
    assert!(matches!(g.handle(IngestEvent::PortOpened), IngestAction::Stop));
}

#[test]
fn bytes_become_samples() {
    let mut g = Ingestor::new();
    let mut s = ChannelStore::new(3);
    let out = g.on_bytes(&mut s, b"1000,21.5C,,22.0C\r#status ok\r2000,x\r3000,1");
    assert_eq!(out.len(), 3);
    assert!(matches!(out[0], LineOutcome::Appended));
    assert!(matches!(&out[1], LineOutcome::Control(p) if p == "status ok"));
    assert!(matches!(out[2], LineOutcome::Rejected(ProtocolParseError::BadReading { channel: 0 })));
    assert_eq!(s.len(), 1);
    let out = g.on_bytes(&mut s, b"C\r");
    assert_eq!(out.len(), 1);
    assert_eq!(s.len(), 2);
    let view = s.export_view();
    assert_eq!(view[1].timestamp, 3000);
    assert_eq!(view[1].readings, vec![Some(Reading::new(1, 0)), None, None]);
}

#[test]
fn invalid_utf8_line_is_rejected() {
    let mut g = Ingestor::new();
    let mut s = ChannelStore::new(2);
    let out = g.on_bytes(&mut s, b"5,1\xff\r");
    assert_eq!(out.len(), 1);
    assert!(matches!(out[0], LineOutcome::Rejected(ProtocolParseError::BadReading { channel: 0 })));
    let out = g.on_bytes(&mut s, b"\xc3\xa9\r");
    assert!(matches!(out[0], LineOutcome::Rejected(ProtocolParseError::BadTimestamp)));
    assert_eq!(s.len(), 0);
}
