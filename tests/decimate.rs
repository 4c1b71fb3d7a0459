use thermo_logger::decimate::{decimate, stride, Point};
use thermo_logger::reading::Reading;
use thermo_logger::store::Sample;

fn series(n: u64) -> Vec<Sample> {
    (0..n).map(|k| Sample { timestamp: k, reading: Some(Reading::new(k as i64, 1)) }).collect()
}

#[test]
fn ten_thousand_points_in_width_one_hundred() {
    assert_eq!(stride(10_000, 100), 100);
    let out = decimate(&series(10_000), 100);
    assert_eq!(out.len(), 100);
    for (j, p) in out.iter().enumerate() {
        assert_eq!(p.timestamp, (j * 100) as u64);
    }
}

#[test]
fn stride_rounds_to_nearest() {
    assert_eq!(stride(250, 100), 3);
    assert_eq!(stride(249, 100), 2);
    assert_eq!(stride(149, 100), 1);
    assert_eq!(stride(150, 100), 2);
    assert_eq!(stride(0, 100), 0);
    assert_eq!(stride(7, 0), 7);
}

#[test]
fn small_stride_returns_everything() {
    let s = series(149);
    let out = decimate(&s, 100);
    assert_eq!(out.len(), 149);
    assert!(out.iter().zip(s.iter()).all(|(p, q)| p.timestamp == q.timestamp));
}

#[test]
fn stride_two_takes_every_other_point() {
    let out = decimate(&series(7), 3);
    assert_eq!(stride(7, 3), 2);
    assert_eq!(out.iter().map(|p| p.timestamp).collect::<Vec<_>>(), vec![0, 2, 4, 6]);
}

#[test]
fn missing_readings_are_dropped_first() {
    let s = vec![
        Sample { timestamp: 1, reading: None },
        Sample { timestamp: 2, reading: Some(Reading::new(5, 0)) },
        Sample { timestamp: 3, reading: None },
        Sample { timestamp: 4, reading: Some(Reading::new(6, 0)) },
    ];
    assert_eq!(
        decimate(&s, 10),
        vec![
            Point { timestamp: 2, value: Reading::new(5, 0) },
            Point { timestamp: 4, value: Reading::new(6, 0) }
        ]
    );
}

#[test]
fn output_never_longer_and_in_order() {
    for n in [0u64, 1, 2, 3, 10, 99, 1000] {
        for w in [0usize, 1, 2, 7, 50, 2000] {
            let s = series(n);
            let out = decimate(&s, w);
            assert!(out.len() <= s.len());
            assert!(out.windows(2).all(|p| p[0].timestamp < p[1].timestamp));
        }
    }
}

#[test]
fn zero_width_keeps_first_point() {
    let out = decimate(&series(5), 0);
    assert_eq!(out.len(), 1);
    assert_eq!(out[0].timestamp, 0);
    assert!(decimate(&Vec::new(), 0).is_empty());
}
