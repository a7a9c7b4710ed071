use transform::cli::{lift_result, require_section, DataOp, ExecList, Load, OpKind};
use transform::error::{CfgErrSubject, ConfigError};
use transform::filter::{FilterSeed, FilterSet};

fn filt(name: &str) -> DataOp {
    DataOp::Filter(String::from(name))
}

fn load(addr: &str) -> DataOp {
    DataOp::Load(String::from(addr))
}

fn op_names(ops: &[OpKind]) -> Vec<String> {
    ops.iter()
        .map(|op| match op {
            OpKind::Join => String::from("join"),
            OpKind::Filter(name) => format!("filter:{}", name),
        })
        .collect()
}

#[test]
fn exec_list_is_sorted_and_joins_collapse() {
    let list = ExecList::new(vec![
        load("host-b:1"),
        filt("zeta"),
        DataOp::Join,
        filt("alpha"),
        DataOp::Join,
        load("host-a:1"),
        DataOp::Join,
    ]);
    let ops = list.get_ops().expect("operators configured");
    assert_eq!(op_names(&ops), vec!["join", "filter:alpha", "filter:zeta"]);
    let loads = list.get_loads().expect("loaders configured");
    let addrs: Vec<&str> = loads.iter().map(|Load(a)| *a).collect();
    assert_eq!(addrs, vec!["host-a:1", "host-b:1"]);
}

#[test]
fn exec_list_without_loaders() {
    let list = ExecList::new(vec![filt("only")]);
    assert!(list.get_ops().is_some());
    assert!(list.get_loads().is_none());
}

#[test]
fn exec_list_with_only_loaders() {
    let list = ExecList::new(vec![load("x:1")]);
    assert!(list.get_ops().is_none());
    assert!(list.get_loads().is_some());
}

#[test]
fn duplicate_filters_are_kept() {
    let list = ExecList::new(vec![filt("same"), filt("same")]);
    let ops = list.get_ops().expect("operators configured");
    assert_eq!(op_names(&ops), vec!["filter:same", "filter:same"]);
}

#[test]
fn data_op_predicates() {
    assert!(DataOp::Join.is_join());
    assert!(!DataOp::Join.is_filter());
    assert!(filt("f").is_filter());
    assert!(!filt("f").is_load());
    assert!(load("l:1").is_load());
    assert!(!load("l:1").is_join());
}

#[test]
fn exec_keys_must_name_existing_filters() {
    let fs = FilterSet::try_new(vec![(
        String::from("known"),
        vec![FilterSeed::Regex(String::from(".*"))],
    )])
    .unwrap();
    let good = ExecList::new(vec![DataOp::Join, filt("known")]);
    assert!(good.validate(&fs).is_ok());
    let bad = ExecList::new(vec![filt("missing")]);
    assert!(bad.validate(&fs).is_err());
}

#[test]
fn sections_merge_once_across_files() {
    // a section seen in one file only is kept
    let merged = lift_result(Some(1u32), None, CfgErrSubject::Filter).unwrap();
    assert_eq!(merged, Some(1));
    // a file without the section leaves the earlier one in place
    let merged = lift_result(None, Some(2u32), CfgErrSubject::Join).unwrap();
    assert_eq!(merged, Some(2));
    // the same section in two files is a fatal duplicate
    let dup = lift_result(Some(3u32), Some(4u32), CfgErrSubject::Exec);
    assert!(matches!(dup, Err(ConfigError::Duplicate(CfgErrSubject::Exec))));
    // a section never given is a fatal omission
    assert_eq!(require_section(Some(5u32), CfgErrSubject::Filter).unwrap(), 5);
    let missing = require_section::<u32>(None, CfgErrSubject::Join);
    assert!(matches!(missing, Err(ConfigError::Missing(CfgErrSubject::Join))));
}
