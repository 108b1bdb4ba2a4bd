use snmp_mib_client::mib::NodeKind;
use snmp_mib_client::yang::{YangParseResult, YangReader};

const COMMON: &str = r#"
module example-common {
    namespace "urn:example:common";
    prefix common;

    grouping port-attrs {
        leaf speed {
            type string;
        }
        leaf enabled {
            type boolean;
        }
    }
}
"#;

const DEVICE: &str = r#"
module example-device {
    namespace "urn:example:device";
    prefix dev;

    import example-common {
        prefix common;
    }

    container device {
        list circuit-packs {
            key "name";
            leaf name {
                type string;
            }
            container ports {
                list port {
                    key "port-name";
                    leaf port-name {
                        type string;
                    }
                    uses common:port-attrs;
                    choice mode {
                        case fixed {
                            leaf fixed-rate {
                                type uint32;
                            }
                        }
                        case auto {
                            leaf auto-negotiate {
                                type boolean;
                            }
                        }
                    }
                }
            }
        }
    }

    augment "/dev:device" {
        leaf status {
            type string;
        }
    }
}
"#;

fn read(files: &[(&str, &str)]) -> YangParseResult {
    let mut reader = YangReader::new();
    for (name, text) in files {
        reader.add_source(name, text);
    }
    reader.finish()
}

#[test]
fn builds_a_tree_with_containers_lists_choice_and_cross_module_uses() {
    let result = read(&[("example-common.yang", COMMON), ("example-device.yang", DEVICE)]);
    assert!(result.errors.is_empty(), "unexpected parse errors: {:?}", result.errors.iter().map(|e| e.errors.clone()).collect::<Vec<_>>());
    assert_eq!(result.tree.len(), 2, "expected one root per module");

    let device = result.tree.iter().find(|n| n.label == "example-device").expect("example-device root");
    let device_container = device.children.iter().find(|n| n.label == "device").expect("device container");
    assert_eq!(device_container.path, "/example-device:device");
    assert_eq!(device_container.kind, NodeKind::Group);

    let packs = device_container.children.iter().find(|n| n.label.starts_with("circuit-packs")).expect("circuit-packs list");
    assert_eq!(packs.kind, NodeKind::Table);
    assert!(packs.label.contains("[name]"), "label should show the key: {}", packs.label);
    assert_eq!(packs.path, "/example-device:device/example-device:circuit-packs");

    let ports_container = packs.children.iter().find(|n| n.label == "ports").expect("ports container");
    let port_list = ports_container.children.iter().find(|n| n.label.starts_with("port")).expect("port list");

    let speed = port_list.children.iter().find(|n| n.label == "speed").expect("speed leaf from the resolved uses");
    assert_eq!(speed.path, "/example-device:device/example-device:circuit-packs/example-device:ports/example-device:port/example-common:speed");
    assert!(speed.resolved);

    assert!(port_list.children.iter().any(|n| n.label == "fixed-rate"));
    assert!(port_list.children.iter().any(|n| n.label == "auto-negotiate"));

    let augment = device.children.iter().find(|n| n.label.starts_with("augment")).expect("augment node");
    assert_eq!(augment.path, "/example-device:device");
    assert!(augment.children.iter().any(|n| n.label == "status"));
}

#[test]
fn an_unresolvable_uses_is_shown_as_a_greyed_out_placeholder_not_dropped() {
    let lonely = r#"
module example-lonely {
    namespace "urn:example:lonely";
    prefix lonely;

    container top {
        uses missing-grouping;
    }
}
"#;
    let result = read(&[("example-lonely.yang", lonely)]);
    let top = result.tree[0].children.iter().find(|n| n.label == "top").unwrap();
    let placeholder = &top.children[0];
    assert_eq!(placeholder.label, "uses missing-grouping");
    assert!(!placeholder.resolved);
    assert_eq!(placeholder.path, "");
}

#[test]
fn module_namespaces_are_collected() {
    let result = read(&[("example-common.yang", COMMON), ("example-device.yang", DEVICE)]);
    let ns: Vec<(String, String)> = result.module_namespaces.clone();
    assert!(ns.contains(&("example-common".to_string(), "urn:example:common".to_string())));
    assert!(ns.contains(&("example-device".to_string(), "urn:example:device".to_string())));
}

#[test]
fn a_module_root_is_labelled_with_its_name() {
    let result = read(&[("example-common.yang", COMMON)]);
    assert_eq!(result.tree[0].id, "yang:example-common");
    assert_eq!(result.tree[0].path, "/");
    assert!(result.tree[0].children.is_empty(), "a grouping alone is not a data node");
}

#[test]
fn a_broken_file_is_reported() {
    let result = read(&[("broken.yang", "module broken { container x { ")]);
    assert!(result.errors.iter().any(|e| e.file == "broken.yang"));
}
