use netscan::ports::{collect_open_ports, common_ports, parse_port_choice, parse_port_list};

#[test]
fn invalid_tokens_are_silently_dropped() {
    assert_eq!(parse_port_choice(Some("80,443,notaport,22")), vec![80, 443, 22]);
}

#[test]
fn default_sentinel_yields_the_ten_well_known_ports() {
    let d = parse_port_choice(Some("default"));
    assert_eq!(d, vec![21, 22, 23, 53, 80, 110, 143, 443, 3306, 8080]);
    assert_eq!(d.len(), 10);
    assert_eq!(d, common_ports());
}

#[test]
fn absent_specification_disables_port_scanning() {
    assert_eq!(parse_port_choice(None), Vec::<u16>::new());
}

#[test]
fn entries_are_trimmed_before_parsing() {
    assert_eq!(parse_port_list(" 80 ,\t443 , 22"), vec![80, 443, 22]);
    assert_eq!(parse_port_list("\u{00A0}80\u{2003}"), vec![80]);
}

#[test]
fn one_leading_plus_sign_is_accepted() {
    assert_eq!(parse_port_list("+80,443"), vec![80, 443]);
    assert_eq!(parse_port_list("++80"), Vec::<u16>::new());
    assert_eq!(parse_port_list("+"), Vec::<u16>::new());
}

#[test]
fn out_of_range_and_empty_entries_are_dropped() {
    assert_eq!(parse_port_list("70000,80"), vec![80]);
    assert_eq!(parse_port_list("65535,65536"), vec![65535]);
    assert_eq!(parse_port_list(",,80,"), vec![80]);
    assert_eq!(parse_port_list("-1,8080"), vec![8080]);
    assert_eq!(parse_port_list(""), Vec::<u16>::new());
}

#[test]
fn duplicate_and_zero_entries_are_kept_in_order() {
    assert_eq!(parse_port_list("443,80,443,0"), vec![443, 80, 443, 0]);
}

#[test]
fn open_ports_keep_probing_order() {
    let ports: Vec<u16> = vec![21, 22, 80, 443];
    let open: Vec<bool> = vec![false, true, true, false];
    assert_eq!(collect_open_ports(&ports, &open), vec![22, 80]);

    let none_open: Vec<bool> = vec![false, false, false, false];
    assert_eq!(collect_open_ports(&ports, &none_open), Vec::<u16>::new());

    let all_open: Vec<bool> = vec![true, true, true, true];
    assert_eq!(collect_open_ports(&ports, &all_open), ports);
}
