use thermo_logger::ingest::{ingest_line, LineOutcome};
use thermo_logger::protocol::ProtocolParseError;
use thermo_logger::reading::Reading;
use thermo_logger::store::{ChannelDisplay, ChannelStore, Rgba, Sample};
use thermo_logger::NUM_CHANNELS;

fn lengths(s: &ChannelStore) -> Vec<usize> {
    (0..s.channel_count()).map(|i| s.channel_samples(i).len()).collect()
}

#[test]
fn new_store_is_empty() {
    let s = ChannelStore::new(NUM_CHANNELS);
    assert_eq!(s.channel_count(), 8);
    assert_eq!(s.len(), 0);
    assert_eq!(s.latest(), vec![None; 8]);
    assert!(s.export_view().is_empty());
}

#[test]
fn append_grows_every_channel_in_lock_step() {
    let mut s = ChannelStore::new(3);
    s.append(10, vec![Some(Reading::new(1, 0)), None, Some(Reading::new(3, 0))], "t0".to_string());
    s.append(20, vec![None, Some(Reading::new(2, 0)), None], "t1".to_string());
    assert_eq!(s.len(), 2);
    assert_eq!(lengths(&s), vec![2, 2, 2]);
    assert_eq!(
        s.channel_samples(1),
        vec![
            Sample { timestamp: 10, reading: None },
            Sample { timestamp: 20, reading: Some(Reading::new(2, 0)) }
        ]
    );
    assert_eq!(
        s.latest(),
        vec![
            Some(Sample { timestamp: 20, reading: None }),
            Some(Sample { timestamp: 20, reading: Some(Reading::new(2, 0)) }),
            Some(Sample { timestamp: 20, reading: None }),
        ]
    );
    let view = s.export_view();
    assert_eq!(view.len(), 2);
    assert_eq!(view[0].timestamp, 10);
    assert_eq!(view[0].datetime, "t0");
    assert_eq!(view[1].readings, vec![None, Some(Reading::new(2, 0)), None]);
}

#[test]
fn valid_data_line_adds_one_sample_everywhere() {
    let mut s = ChannelStore::new(NUM_CHANNELS);
    let out = ingest_line(&mut s, "1000,21.5C,,22.0C");
    assert!(matches!(out, LineOutcome::Appended));
    assert_eq!(s.len(), 1);
    assert_eq!(lengths(&s), vec![1; 8]);
    let out = ingest_line(&mut s, "2000");
    assert!(matches!(out, LineOutcome::Appended));
    assert_eq!(s.len(), 2);
    assert_eq!(lengths(&s), vec![2; 8]);
    let row = &s.export_view()[0];
    assert_eq!(row.timestamp, 1000);
    assert!(!row.datetime.is_empty());
    assert!(!row.datetime.contains('%'));
    assert_eq!(row.readings[0], Some(Reading::new(215, 1)));
    assert_eq!(row.readings[1], None);
    assert_eq!(row.readings[2], Some(Reading::new(220, 1)));
    assert_eq!(row.readings[7], None);
}

#[test]
fn malformed_line_leaves_store_unchanged() {
    let mut s = ChannelStore::new(3);
    ingest_line(&mut s, "1,1,2,3");
    for line in ["x,1", "2,1,zz", "", "3,1.1.1"] {
        let out = ingest_line(&mut s, line);
        assert!(matches!(out, LineOutcome::Rejected(_)), "{:?}", line);
        assert_eq!(s.len(), 1);
        assert_eq!(lengths(&s), vec![1, 1, 1]);
    }
    assert!(matches!(
        ingest_line(&mut s, "2,1,zz"),
        LineOutcome::Rejected(ProtocolParseError::BadReading { channel: 1 })
    ));
}

#[test]
fn control_line_leaves_store_unchanged() {
    let mut s = ChannelStore::new(3);
    match ingest_line(&mut s, "#status ok") {
        LineOutcome::Control(p) => assert_eq!(p, "status ok"),
        other => panic!("expected a control outcome, got {:?}", other),
    }
    assert_eq!(s.len(), 0);
    assert_eq!(lengths(&s), vec![0, 0, 0]);
}

#[test]
fn readers_never_see_channels_out_of_step() {
    let store = std::sync::Mutex::new(ChannelStore::new(NUM_CHANNELS));
    let mut reads = 0;
    for k in 0..1000u64 {
        let line = format!("{},{}C,,{}.5C", k, k, k);
        let out = ingest_line(&mut store.lock().unwrap(), &line);
        assert!(matches!(out, LineOutcome::Appended));
        if k % 7 == 0 {
            let (view, lens) = {
                let s = store.lock().unwrap();
                (s.export_view(), lengths(&s))
            };
            assert_eq!(view.len() as u64, k + 1);
            assert!(lens.iter().all(|&l| l == view.len()));
            assert!(view.iter().all(|r| r.readings.len() == NUM_CHANNELS));
            for (j, r) in view.iter().enumerate() {
                assert_eq!(r.timestamp, j as u64);
            }
            reads += 1;
        }
    }
    assert!(reads > 100);
    assert_eq!(store.lock().unwrap().len(), 1000);
}

#[test]
fn display_attributes() {
    let red = Rgba { r: 255, g: 0, b: 0, a: 255 };
    let mut d = ChannelDisplay::new(red);
    assert!(d.enabled);
    assert_eq!(d.colour, red);
    d.enabled = false;
    assert!(!d.enabled);
}
