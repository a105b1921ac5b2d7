use worf::hostcfg::{parse_mpd_host, parse_port, HostTarget};

fn b(s: &str) -> Vec<u8> {
    s.as_bytes().to_vec()
}

#[test]
fn plain_host_has_no_password() {
    let cfg = parse_mpd_host(&b("127.0.0.1"));
    assert_eq!(cfg.password, None);
    assert!(matches!(cfg.target, HostTarget::Tcp(h) if h == b("127.0.0.1")));
}

#[test]
fn password_before_at_sign() {
    let cfg = parse_mpd_host(&b("secret@myhost"));
    assert_eq!(cfg.password, Some(b("secret")));
    assert!(matches!(cfg.target, HostTarget::Tcp(h) if h == b("myhost")));
}

#[test]
fn only_the_first_at_sign_splits() {
    let cfg = parse_mpd_host(&b("se@cr@et"));
    assert_eq!(cfg.password, Some(b("se")));
    assert!(matches!(cfg.target, HostTarget::Tcp(h) if h == b("cr@et")));
}

#[test]
fn leading_at_sign_names_an_abstract_socket() {
    let cfg = parse_mpd_host(&b("@mpdsocket"));
    assert_eq!(cfg.password, None);
    assert!(matches!(cfg.target, HostTarget::Abstract(n) if n == b("mpdsocket")));
}

#[test]
fn slash_names_a_socket_path() {
    let cfg = parse_mpd_host(&b("/run/mpd/socket"));
    assert_eq!(cfg.password, None);
    assert!(matches!(cfg.target, HostTarget::UnixPath(p) if p == b("/run/mpd/socket")));
}

#[test]
fn tilde_names_a_socket_path() {
    let cfg = parse_mpd_host(&b("~/.mpd/socket"));
    assert!(matches!(cfg.target, HostTarget::UnixPath(p) if p == b("~/.mpd/socket")));
}

#[test]
fn password_with_socket_path() {
    let cfg = parse_mpd_host(&b("secret@/run/mpd/socket"));
    assert_eq!(cfg.password, Some(b("secret")));
    assert!(matches!(cfg.target, HostTarget::UnixPath(p) if p == b("/run/mpd/socket")));
}

#[test]
fn empty_setting_is_an_empty_tcp_host() {
    let cfg = parse_mpd_host(&b(""));
    assert_eq!(cfg.password, None);
    assert!(matches!(cfg.target, HostTarget::Tcp(h) if h.is_empty()));
}

#[test]
fn ports_parse_as_decimal() {
    assert_eq!(parse_port(&b("6600")), Some(6600));
    assert_eq!(parse_port(&b("0")), Some(0));
    assert_eq!(parse_port(&b("65535")), Some(65535));
}

#[test]
fn leading_plus_is_accepted() {
    assert_eq!(parse_port(&b("+80")), Some(80));
}

#[test]
fn bad_ports_are_rejected() {
    assert_eq!(parse_port(&b("")), None);
    assert_eq!(parse_port(&b("+")), None);
    assert_eq!(parse_port(&b("65536")), None);
    assert_eq!(parse_port(&b("999999999999")), None);
    assert_eq!(parse_port(&b("66a0")), None);
    assert_eq!(parse_port(&b("-1")), None);
    assert_eq!(parse_port(&b(" 6600")), None);
}
