use home_gateway::endpoint::{Endpoint, IpAddress};
use home_gateway::routes::{get_service_name, resolve, service_listing, text_le_exec, RouteError, ServiceKind};
use home_gateway::service_discovery::Proxy;

fn addr(last: u8) -> Endpoint {
    Endpoint { ip: IpAddress::V4(192, 0, 2, last), port: 5683 }
}

fn directory() -> Proxy {
    let mut p = Proxy::new();
    p.upsert("ll".to_string(), Some("rgbw".to_string()), addr(5), 10);
    p.upsert("k".to_string(), Some("shcnt".to_string()), addr(6), 10);
    p.upsert("zz".to_string(), None, addr(7), 10);
    p.upsert("x".to_string(), Some("thermo".to_string()), addr(8), 10);
    p
}

#[test]
fn unknown_device_not_discovered() {
    let p = directory();
    assert!(matches!(resolve(&p, "unknown"), Err(RouteError::NotDiscovered)));
    assert!(matches!(resolve(&Proxy::new(), "ll"), Err(RouteError::NotDiscovered)));
}

#[test]
fn resolve_typed_devices() {
    let p = directory();
    assert_eq!(resolve(&p, "ll").unwrap(), (ServiceKind::Rgbw, addr(5)));
    assert_eq!(resolve(&p, "k").unwrap(), (ServiceKind::Shcnt, addr(6)));
}

#[test]
fn resolve_untyped_and_unknown_type() {
    let p = directory();
    assert!(matches!(resolve(&p, "zz"), Err(RouteError::Untyped)));
    assert!(matches!(resolve(&p, "x"), Err(RouteError::UnknownType(t)) if t == "thermo"));
}

#[test]
fn labels_lookup() {
    assert_eq!(get_service_name("ll"), Some("Living room lights"));
    assert_eq!(get_service_name("k"), Some("Kitchen shades"));
    assert_eq!(get_service_name("prx"), Some("Proxy"));
    assert_eq!(get_service_name("l"), None);
    assert_eq!(get_service_name(""), None);
}

#[test]
fn listing_of_empty_directory() {
    assert!(service_listing(&Proxy::new()).is_empty());
}

#[test]
fn listing_order_type_then_name() {
    let mut p = directory();
    p.upsert("lr".to_string(), Some("shcnt".to_string()), addr(9), 10);
    p.upsert("aa".to_string(), None, addr(10), 10);
    let l = service_listing(&p);
    let got: Vec<(&str, &str)> = l.iter().map(|e| (e.id.as_str(), e.name.as_str())).collect();
    assert_eq!(
        got,
        vec![
            ("ll", "Living room lights"),
            ("k", "Kitchen shades"),
            ("lr", "Living room shades"),
            ("x", "x"),
            ("aa", "aa"),
            ("zz", "zz"),
        ]
    );
    assert_eq!(l[0].address, addr(5));
    assert_eq!(l[5].service_type, None);
}

#[test]
fn text_order() {
    assert!(text_le_exec("", ""));
    assert!(text_le_exec("", "a"));
    assert!(!text_le_exec("a", ""));
    assert!(text_le_exec("ab", "ac"));
    assert!(text_le_exec("ab", "abc"));
    assert!(!text_le_exec("b", "abc"));
    assert!(text_le_exec("same", "same"));
}
