use volume_control::{
    pactl_volume_text, volume_from_pactl_number, volume_from_pactl_output,
    volume_from_wpctl_output, wpctl_volume_text, Decimal, QueryError,
};

fn dec(mantissa: i128, scale: u32) -> Decimal {
    Decimal::new(mantissa, scale)
}

#[test]
fn wpctl_output_is_read() {
    assert_eq!(volume_from_wpctl_output("Volume: 0.45\n"), Ok(dec(45, 2)));
    assert_eq!(volume_from_wpctl_output("Volume: 1.00"), Ok(dec(1, 0)));
    assert_eq!(volume_from_wpctl_output("Volume:  \t0.3 \r\n"), Ok(dec(3, 1)));
}

#[test]
fn wpctl_output_with_exponent_is_read() {
    assert_eq!(volume_from_wpctl_output("Volume: 1e-1\n"), Ok(dec(1, 1)));
    assert_eq!(volume_from_wpctl_output("Volume: 4.5E-1"), Ok(dec(45, 2)));
    assert_eq!(volume_from_wpctl_output("Volume: 2e1"), Ok(dec(20, 0)));
    assert_eq!(volume_from_wpctl_output("Volume: 0.25e+1"), Ok(dec(25, 1)));
    assert_eq!(volume_from_wpctl_output("Volume: 0e99999"), Ok(dec(0, 0)));
    assert_eq!(volume_from_wpctl_output("Volume: 1e"), Err(QueryError::InvalidNumber));
    assert_eq!(volume_from_wpctl_output("Volume: e1"), Err(QueryError::InvalidNumber));
    assert_eq!(volume_from_wpctl_output("Volume: 1e1.5"), Err(QueryError::InvalidNumber));
    assert_eq!(volume_from_wpctl_output("Volume: 1e18"), Err(QueryError::TooLong));
    assert_eq!(volume_from_wpctl_output("Volume: 1e-19"), Err(QueryError::TooLong));
}

#[test]
fn wpctl_output_without_volume_is_refused() {
    assert_eq!(volume_from_wpctl_output(""), Err(QueryError::NoVolume));
    assert_eq!(volume_from_wpctl_output("volume: 0.45"), Err(QueryError::NoVolume));
    assert_eq!(volume_from_wpctl_output("Volume:0.45"), Err(QueryError::NoVolume));
    assert_eq!(
        volume_from_wpctl_output("Volume: 0.45 [MUTED]\n"),
        Err(QueryError::InvalidNumber)
    );
    assert_eq!(volume_from_wpctl_output("Volume: \n"), Err(QueryError::InvalidNumber));
    assert_eq!(
        volume_from_wpctl_output("Volume: 1234567890123456789"),
        Err(QueryError::TooLong)
    );
}

#[test]
fn pactl_output_is_read() {
    let out = "Volume: front-left: 29491 /  45% / -20.81 dB,   front-right: 29491 /  45% / -20.81 dB\n";
    assert_eq!(volume_from_pactl_output(out), Ok(dec(45, 2)));
    assert_eq!(volume_from_pactl_output("Volume: mono: 12.5%"), Ok(dec(125, 3)));
}

#[test]
fn pactl_output_without_volume_is_refused() {
    assert_eq!(volume_from_pactl_output("front-left: 45%"), Err(QueryError::NoVolume));
    assert_eq!(volume_from_pactl_output("Volume: muted"), Err(QueryError::NoVolume));
    assert_eq!(volume_from_pactl_output("Volume: 12a34%"), Err(QueryError::InvalidNumber));
}

#[test]
fn pactl_number_is_divided_by_hundred() {
    assert_eq!(volume_from_pactl_number("45"), Ok(dec(45, 2)));
    assert_eq!(volume_from_pactl_number("150.5"), Ok(dec(1505, 3)));
    assert_eq!(volume_from_pactl_number("1.5.5"), Err(QueryError::InvalidNumber));
    assert_eq!(volume_from_pactl_number("45.000000000000000000"), Ok(dec(45, 2)));
    assert_eq!(
        volume_from_pactl_number("1.00000000000000001"),
        Err(QueryError::TooLong)
    );
}

#[test]
fn wpctl_argument_text() {
    let text = |h: i128| String::from_utf8(wpctl_volume_text(dec(h, 2))).unwrap();
    assert_eq!(text(45), "0.45");
    assert_eq!(text(50), "0.5");
    assert_eq!(text(7), "0.07");
    assert_eq!(text(0), "0");
    assert_eq!(text(100), "1");
    assert_eq!(text(200), "2");
    assert_eq!(text(195), "1.95");
}

#[test]
fn pactl_argument_text() {
    let text = |h: i128| String::from_utf8(pactl_volume_text(dec(h, 2))).unwrap();
    assert_eq!(text(45), "45%");
    assert_eq!(text(0), "0%");
    assert_eq!(text(5), "5%");
    assert_eq!(text(200), "200%");
}
