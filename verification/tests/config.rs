use proxy_client::config::{Address, Config, Target};

#[test]
fn loopback_is_localhost() {
    let t = Target::loopback(4242);
    assert_eq!(t.address, Address::V4(127, 0, 0, 1));
    assert_eq!(t.port, 4242);
}

#[test]
fn config_lists_every_port_in_order() {
    let config = Config::new(vec![vec![8001, 8002], vec![], vec![9001]], 10);
    assert_eq!(
        config.servers,
        vec![Target::loopback(8001), Target::loopback(8002), Target::loopback(9001)]
    );
    assert_eq!(config.message_per_connection, 10);
}

#[test]
fn config_keeps_repeated_ports() {
    let config = Config::new(vec![vec![7000, 7000], vec![7000]], 1);
    assert_eq!(config.servers.len(), 3);
    assert_eq!(config.servers[0], config.servers[2]);
}

#[test]
fn config_without_apps_has_no_servers() {
    let config = Config::new(vec![], 10);
    assert!(config.servers.is_empty());
    assert_eq!(config.total_messages(), 0);
}

#[test]
fn total_messages_is_messages_times_servers() {
    let config = Config::new(vec![vec![1, 2, 3]], 5);
    assert_eq!(config.total_messages(), 15);
    let none = Config::new(vec![vec![1, 2, 3]], 0);
    assert_eq!(none.total_messages(), 0);
    let most = Config::new(vec![vec![1, 2]], u16::MAX);
    assert_eq!(most.total_messages(), 131070);
}

#[test]
fn config_can_name_any_address() {
    let remote = Target { address: Address::V6(0, 0, 0, 0, 0, 0, 0, 1), port: 443 };
    let config = Config { servers: vec![remote], message_per_connection: 2 };
    assert_eq!(config.total_messages(), 2);
    assert_ne!(remote, Target::loopback(443));
}
