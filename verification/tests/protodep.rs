use protofetch::model::protodep::{Dependency, ProtodepDescriptor};
use protofetch::model::protofetch::Descriptor;
use protofetch::model::ParseError;
use protofetch::toml_doc::toml_to_string_pretty;

fn dep(target: &str, branch: Option<&str>, revision: &str, protocol: &str) -> Dependency {
    Dependency {
        target: target.to_string(),
        subgroup: None,
        branch: branch.map(|b| b.to_string()),
        revision: revision.to_string(),
        path: None,
        ignores: vec![],
        includes: vec![],
        protocol: protocol.to_string(),
    }
}

#[test]
fn protodep_load_valid_file_one_dep() {
    let str = r#"
proto_outdir = "./proto_out"

[[dependencies]]
  target = "github.com/opensaasstudio/plasma/protobuf"
  branch = "master"
  protocol = "ssh"
  revision = "1.0.0"
"#;
    let expected = ProtodepDescriptor {
        proto_out_dir: "./proto_out".to_string(),
        dependencies: vec![dep("github.com/opensaasstudio/plasma/protobuf", Some("master"), "1.0.0", "ssh")],
    };
    assert_eq!(ProtodepDescriptor::from_toml_str(str).unwrap(), expected);
}

#[test]
fn protodep_load_valid_file_multiple_dep() {
    let str = r#"
proto_outdir = "./proto_out"

[[dependencies]]
  target = "github.com/opensaasstudio/plasma/protobuf"
  branch = "master"
  protocol = "ssh"
  revision = "1.0.0"

[[dependencies]]
  target = "github.com/opensaasstudio/plasma1/protobuf"
  branch = "master"
  protocol = "https"
  revision = "2.0.0"

[[dependencies]]
  target = "github.com/opensaasstudio/plasma2/protobuf"
  protocol = "ssh"
  revision = "3.0.0"
"#;
    let expected = ProtodepDescriptor {
        proto_out_dir: "./proto_out".to_string(),
        dependencies: vec![
            dep("github.com/opensaasstudio/plasma/protobuf", Some("master"), "1.0.0", "ssh"),
            dep("github.com/opensaasstudio/plasma1/protobuf", Some("master"), "2.0.0", "https"),
            dep("github.com/opensaasstudio/plasma2/protobuf", None, "3.0.0", "ssh"),
        ],
    };
    assert_eq!(ProtodepDescriptor::from_toml_str(str).unwrap(), expected);
}

#[test]
fn load_valid_file_no_dep() {
    let str = r#"proto_outdir = "./proto_out""#;
    let expected = ProtodepDescriptor { proto_out_dir: "./proto_out".to_string(), dependencies: vec![] };
    assert_eq!(ProtodepDescriptor::from_toml_str(str).unwrap(), expected);
}

#[test]
fn migrate_protodep_to_protofetch_file() {
    let protodep_toml = r#"
proto_outdir = "./proto_out"

[[dependencies]]
  target = "github.com/opensaasstudio/plasma"
  branch = "master"
  protocol = "ssh"
  revision = "1.5.0"
"#;
    let protofetch_toml = r#"
name = "generated"
description = "Generated from protodep file"
proto_out_dir = "./proto_out"
[plasma]
  url="github.com/opensaasstudio/plasma"
  protocol = "ssh"
  revision = "1.5.0"
"#;
    let descriptor = ProtodepDescriptor::from_toml_str(protodep_toml).unwrap().into_proto_fetch().unwrap();
    let toml = toml_to_string_pretty(&descriptor.into_toml()).unwrap();
    let expected = Descriptor::from_toml_str(protofetch_toml).unwrap();
    let result = Descriptor::from_toml_str(&toml).unwrap();
    assert_eq!(result, expected);
}

#[test]
fn protodep_without_out_dir_is_refused() {
    let str = r#"
[[dependencies]]
  target = "github.com/org/repo"
  protocol = "ssh"
  revision = "1.0.0"
"#;
    assert!(ProtodepDescriptor::from_toml_str(str).is_err());
}

#[test]
fn protodep_with_malformed_text_is_refused() {
    assert!(matches!(ProtodepDescriptor::from_toml_str("proto_outdir = "), Err(ParseError::Toml(_))));
}
