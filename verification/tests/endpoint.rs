use trace_engine::endpoint::{parse_endpoint, Collector};
use trace_engine::text::split_on;

#[test]
fn localhost_stands_for_the_loopback_address() {
    let endpoint = parse_endpoint("localhost", "3000").unwrap();
    assert_eq!(endpoint.host, (127, 0, 0, 1));
    assert_eq!(endpoint.port, 3000);
}

#[test]
fn an_address_of_four_numbers_is_read() {
    let endpoint = parse_endpoint("192.168.0.255", "65535").unwrap();
    assert_eq!(endpoint.host, (192, 168, 0, 255));
    assert_eq!(endpoint.port, 65535);
    let endpoint = parse_endpoint("+1.002.0.00", "+80").unwrap();
    assert_eq!(endpoint.host, (1, 2, 0, 0));
    assert_eq!(endpoint.port, 80);
    let endpoint = parse_endpoint("0.0.0.0", "0").unwrap();
    assert_eq!(endpoint.host, (0, 0, 0, 0));
    assert_eq!(endpoint.port, 0);
}

#[test]
fn a_port_that_is_no_number_of_16_bits_is_refused() {
    for port in ["", "65536", "-1", "80a", " 80", "+", "8 0", "99999999999999999999"] {
        assert_eq!(
            parse_endpoint("localhost", port).err(),
            Some("port must be a valid u16".to_string())
        );
    }
    assert_eq!(
        parse_endpoint("not an address", "x").err(),
        Some("port must be a valid u16".to_string())
    );
}

#[test]
fn a_host_of_another_shape_is_refused() {
    for host in ["1.2.3", "1.2.3.4.5", "1"] {
        assert_eq!(
            parse_endpoint(host, "80").err(),
            Some("host must match IP format 'XXX.XXX.XXX.XXX'".to_string())
        );
    }
}

#[test]
fn the_first_part_that_is_no_number_decides_the_error() {
    assert_eq!(
        parse_endpoint("1.2.3.256", "80").err(),
        Some("256".parse::<u8>().unwrap_err().to_string())
    );
    assert_eq!(
        parse_endpoint("1..3.4", "80").err(),
        Some("".parse::<u8>().unwrap_err().to_string())
    );
    assert_eq!(
        parse_endpoint("", "80").err(),
        Some("".parse::<u8>().unwrap_err().to_string())
    );
    assert_eq!(
        parse_endpoint("example.org", "80").err(),
        Some("example".parse::<u8>().unwrap_err().to_string())
    );
    assert_eq!(
        parse_endpoint("1.x.999.4.5", "80").err(),
        Some("x".parse::<u8>().unwrap_err().to_string())
    );
    assert_eq!(
        parse_endpoint("1.999.x", "80").err(),
        Some("999".parse::<u8>().unwrap_err().to_string())
    );
    assert_eq!(
        parse_endpoint("1.2.3.256", "80").err(),
        Some("number too large to fit in target type".to_string())
    );
    assert_eq!(
        parse_endpoint("Localhost", "80").err(),
        Some("invalid digit found in string".to_string())
    );
}

#[test]
fn only_an_idle_endpoint_starts() {
    let mut collector = Collector::new();
    assert!(collector.active().is_none());
    let endpoint = collector.start_collector("localhost", "3000").unwrap();
    assert_eq!(endpoint.port, 3000);
    assert_eq!(collector.active().map(|e| e.host), Some((127, 0, 0, 1)));
    assert_eq!(
        collector.start_collector("localhost", "3001").err(),
        Some("collector already active".to_string())
    );
    assert_eq!(collector.active().map(|e| e.port), Some(3000));
}

#[test]
fn an_endpoint_whose_address_cannot_be_read_stays_idle() {
    let mut collector = Collector::default();
    assert_eq!(
        collector.start_collector("localhost", "port").err(),
        Some("port must be a valid u16".to_string())
    );
    assert!(collector.active().is_none());
    assert!(collector.start_collector("10.0.0.1", "4317").is_ok());
}

#[test]
fn only_an_active_endpoint_stops() {
    let mut collector = Collector::new();
    assert_eq!(
        collector.stop_collector().err(),
        Some("no active collector".to_string())
    );
    collector.start_collector("localhost", "3000").unwrap();
    assert_eq!(collector.stop_collector(), Ok(()));
    assert!(collector.active().is_none());
    assert_eq!(
        collector.stop_collector().err(),
        Some("no active collector".to_string())
    );
    assert!(collector.start_collector("localhost", "3000").is_ok());
}

#[test]
fn a_text_is_split_at_every_separator() {
    assert_eq!(split_on("", '.'), vec![""]);
    assert_eq!(split_on(".", '.'), vec!["", ""]);
    assert_eq!(split_on("a.b", '.'), vec!["a", "b"]);
    assert_eq!(split_on("a..b.", '.'), vec!["a", "", "b", ""]);
    assert_eq!(split_on("no separator", '.'), vec!["no separator"]);
    let expected: Vec<String> = ".x.\u{e9}.".split('.').map(str::to_string).collect();
    assert_eq!(split_on(".x.\u{e9}.", '.'), expected);
}
