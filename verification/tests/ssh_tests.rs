use snmp_mib_client::ssh::ssh_target;

#[test]
fn the_ssh_host_is_trimmed_and_must_not_be_blank() {
    assert_eq!(ssh_target("  router1.example \n").unwrap(), "router1.example");
    assert_eq!(ssh_target(" \t ").unwrap_err(), "no host address given");
    assert_eq!(ssh_target("").unwrap_err(), "no host address given");
}
