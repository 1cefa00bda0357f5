use trust_store::context::{prefix, Config, Context, Error, NetworkPolicy};

#[test]
fn new_context_has_defaults() {
    let c = Context::new("org.example.webmail").unwrap();
    assert_eq!(c.domain(), "org.example.webmail");
    assert_eq!(c.home(), ".sequoia");
    assert_eq!(c.lib(), "/usr/local/lib/sequoia");
    assert_eq!(c.network_policy(), NetworkPolicy::Encrypted);
}

#[test]
fn empty_domain_is_refused() {
    assert_eq!(Context::new("").err(), Some(Error::InvalidDomain));
    assert_eq!(Context::configure("").home("/tmp/foo").build().err(), Some(Error::InvalidDomain));
}

#[test]
fn configure_sets_directories() {
    let c = Context::configure("org.example.webmail")
        .home("/tmp/foo")
        .lib("/opt/lib")
        .network_policy(NetworkPolicy::Offline)
        .build()
        .unwrap();
    assert_eq!(c.domain(), "org.example.webmail");
    assert_eq!(c.home(), "/tmp/foo");
    assert_eq!(c.lib(), "/opt/lib");
    assert_eq!(c.network_policy(), NetworkPolicy::Offline);
}

#[test]
fn setters_change_one_directory_each() {
    let mut cfg: Config = Context::configure("d");
    cfg.set_home("/h");
    let c = cfg.build().unwrap();
    assert_eq!(c.home(), "/h");
    assert_eq!(c.lib(), "/usr/local/lib/sequoia");

    let mut cfg = Context::configure("d");
    cfg.set_lib("/l");
    let c = cfg.build().unwrap();
    assert_eq!(c.home(), ".sequoia");
    assert_eq!(c.lib(), "/l");
}

#[test]
fn prefix_is_usr_local() {
    assert_eq!(prefix(), "/usr/local");
}

#[test]
fn policies_are_ordered() {
    let all = [
        NetworkPolicy::Offline,
        NetworkPolicy::Anonymized,
        NetworkPolicy::Encrypted,
        NetworkPolicy::Insecure,
    ];
    for (i, a) in all.iter().enumerate() {
        assert_eq!(a.level() as usize, i);
        assert_eq!(NetworkPolicy::from_level(i as u8), Some(*a));
        for (j, b) in all.iter().enumerate() {
            assert_eq!(a.at_most(b), i <= j);
            assert_eq!(a < b, i < j);
        }
    }
    assert_eq!(NetworkPolicy::from_level(4), None);
    assert_eq!(NetworkPolicy::from_level(255), None);
    assert!(!NetworkPolicy::Offline.permits_network());
    assert!(NetworkPolicy::Anonymized.permits_network());
    assert!(NetworkPolicy::Encrypted.permits_network());
    assert!(NetworkPolicy::Insecure.permits_network());
}
