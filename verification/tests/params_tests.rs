use photomosaic::MosaicError;
use photomosaic::params::parameters;
use photomosaic::params::parse_u32;
use photomosaic::stage::Stage;

#[test]
fn parse_u32_accepts_digits() {
    assert_eq!(parse_u32(&b"0".to_vec()), Some(0));
    assert_eq!(parse_u32(&b"16".to_vec()), Some(16));
    assert_eq!(parse_u32(&b"4294967295".to_vec()), Some(u32::MAX));
}

#[test]
fn parse_u32_rejects_non_numbers() {
    assert_eq!(parse_u32(&b"".to_vec()), None);
    assert_eq!(parse_u32(&b"12x".to_vec()), None);
    assert_eq!(parse_u32(&b"-3".to_vec()), None);
    assert_eq!(parse_u32(&b"4294967296".to_vec()), None);
}

#[test]
fn parameters_fill_in_defaults() {
    let r = parameters(
        b"in.png".to_vec(),
        b"lib".to_vec(),
        b"out.png".to_vec(),
        false,
        false,
        0,
        None,
        None,
        None,
    )
    .unwrap();
    assert_eq!(r.0, b"in.png".to_vec());
    assert_eq!(r.1, b"lib".to_vec());
    assert_eq!(r.2, b"out.png".to_vec());
    assert_eq!(r.6, 16);
    assert_eq!(r.7, 2);
    assert_eq!(r.8, 2);
}

#[test]
fn parameters_take_explicit_values() {
    let r = parameters(
        b"a".to_vec(),
        b"b".to_vec(),
        b"c".to_vec(),
        true,
        true,
        3,
        Some(b"32".to_vec()),
        Some(b"1".to_vec()),
        Some(b"8".to_vec()),
    )
    .unwrap();
    assert!(r.3);
    assert!(r.4);
    assert_eq!(r.5, 3);
    assert_eq!(r.6, 32);
    assert_eq!(r.7, 1);
    assert_eq!(r.8, 8);
}

#[test]
fn parameters_reject_malformed_numbers() {
    let r = parameters(
        b"a".to_vec(),
        b"b".to_vec(),
        b"c".to_vec(),
        false,
        false,
        0,
        Some(b"ten".to_vec()),
        None,
        None,
    );
    assert_eq!(r.unwrap_err(), MosaicError::InvalidParameter);
}

#[test]
fn stages_run_in_order_and_failure_is_terminal() {
    let mut s = Stage::Idle;
    s = s.advance(true);
    assert_eq!(s, Stage::Indexing);
    s = s.advance(true);
    assert_eq!(s, Stage::Preprocessing);
    s = s.advance(true);
    assert_eq!(s, Stage::Compositing);
    s = s.advance(true);
    assert_eq!(s, Stage::Persisting);
    s = s.advance(true);
    assert_eq!(s, Stage::Done);
    assert_eq!(s.advance(false), Stage::Done);

    let f = Stage::Compositing.advance(false);
    assert_eq!(f, Stage::Failed);
    assert_eq!(f.advance(true), Stage::Failed);
}
