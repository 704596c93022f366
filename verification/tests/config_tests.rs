use ddhpsi::config::{
    get_config_experiments, parse_config_lines, parse_usize, split_config_line, Config,
};

fn lines(text: &[&str]) -> Vec<String> {
    text.iter().map(|s| s.to_string()).collect()
}

#[test]
fn split_config_line_takes_key_and_value() {
    assert_eq!(
        split_config_line("address: 127.0.0.1"),
        Some(("address".to_string(), "127.0.0.1".to_string()))
    );
    assert_eq!(
        split_config_line("a: b: c"),
        Some(("a".to_string(), "b".to_string()))
    );
    assert_eq!(split_config_line("k: "), Some(("k".to_string(), "".to_string())));
    assert_eq!(split_config_line(": v"), Some(("".to_string(), "v".to_string())));
    assert_eq!(split_config_line("key:value"), None);
    assert_eq!(split_config_line(""), None);
}

#[test]
fn parse_usize_follows_std() {
    for s in ["500", "+7", "007", "0", "-1", "", "+", "++1", " 5", "5 ", "1_000", "18446744073709551615", "18446744073709551616", "٣"] {
        assert_eq!(parse_usize(s), s.parse::<usize>().ok(), "input {:?}", s);
    }
    assert_eq!(parse_usize("500"), Some(500));
    assert_eq!(parse_usize("x"), None);
}

#[test]
fn config_insert_and_get() {
    let mut c = Config::new();
    assert_eq!(c.get("a"), None);
    c.insert("a".to_string(), "1".to_string());
    c.insert("b".to_string(), "2".to_string());
    c.insert("a".to_string(), "3".to_string());
    assert_eq!(c.get("a"), Some(&"3".to_string()));
    assert_eq!(c.get("b"), Some(&"2".to_string()));
    assert_eq!(c.get("c"), None);
}

#[test]
fn parse_config_lines_skips_empty_lines_and_keeps_last() {
    let c = parse_config_lines(&lines(&[
        "address: 10.0.0.1",
        "",
        "client_set_size: 500",
        "server_set_size: 5000",
        "client_set_size: 600",
    ]));
    assert_eq!(c.get("address"), Some(&"10.0.0.1".to_string()));
    assert_eq!(c.get("client_set_size"), Some(&"600".to_string()));
    assert_eq!(c.get("server_set_size"), Some(&"5000".to_string()));
    assert_eq!(c.get(""), None);
}

#[test]
fn get_config_experiments_reads_the_three_parameters() {
    let c = parse_config_lines(&lines(&[
        "address: 127.0.0.1",
        "client_set_size: 500",
        "server_set_size: +5000",
    ]));
    assert_eq!(
        get_config_experiments(&c),
        ("127.0.0.1".to_string(), 500, 5000)
    );
}

#[test]
fn parse_usize_reads_back_to_string() {
    for n in [0usize, 7, 10, 99, 500, 5000, 123456789, usize::MAX] {
        assert_eq!(parse_usize(&n.to_string()), Some(n));
    }
}

#[test]
fn experiment_lines_read_back() {
    let (address, n, m) = ("10.1.2.3".to_string(), 500usize, 5000usize);
    let text = format!("address: {}\nclient_set_size: {}\nserver_set_size: {}\n", address, n, m);
    let lines: Vec<String> = text.lines().map(|l| l.to_string()).collect();
    let c = parse_config_lines(&lines);
    assert_eq!(get_config_experiments(&c), (address, n, m));
}
