use std::sync::Arc;

use tds::context::{Context, EncryptionLevel, FeatureLevel, MetaDataColumn, TokenColMetaData};
use tds::packet::{PacketStatus, PacketType};

fn meta(names: &[&str]) -> Arc<TokenColMetaData> {
    let columns = names
        .iter()
        .map(|n| MetaDataColumn { col_name: n.to_string(), type_code: 0x26 })
        .collect();
    Arc::new(TokenColMetaData::new(columns))
}

#[test]
fn new_context_has_defaults() {
    let ctx = Context::new();
    assert_eq!(ctx.packet_size(), 4096);
    assert_eq!(ctx.transaction_id(), 0);
    assert!(ctx.last_meta().is_none());
    assert_eq!(ctx.spn(), "");
}

#[test]
fn feature_level_is_newest() {
    let ctx = Context::new();
    assert_eq!(format!("{:?}", ctx).contains("SqlServerN"), true);
    assert_eq!(FeatureLevel::SqlServerN, FeatureLevel::SqlServerN);
}

#[test]
fn header_ids_are_sequential() {
    let mut ctx = Context::new();
    let ids: Vec<u8> = (0..5).map(|_| ctx.new_header(8).id).collect();
    assert_eq!(ids, vec![0, 1, 2, 3, 4]);
}

#[test]
fn header_ids_wrap_after_255() {
    let mut ctx = Context::new();
    let ids: Vec<u8> = (0..258).map(|_| ctx.new_header(8).id).collect();
    for (i, id) in ids.iter().enumerate() {
        assert_eq!(*id as usize, i % 256);
    }
    let mut seen = [false; 256];
    for id in &ids[..256] {
        assert!(!seen[*id as usize]);
        seen[*id as usize] = true;
    }
}

#[test]
fn new_header_fields() {
    let mut ctx = Context::new();
    let h = ctx.new_header(100);
    assert_eq!(h.length, 100);
    assert_eq!(h.id, 0);
    assert_eq!(h.spid, 0);
    assert_eq!(h.window, 0);
    assert_eq!(h.ty, PacketType::TdsV7Login);
    assert_eq!(h.status, PacketStatus::ResetConnection);
}

#[test]
fn packet_size_setter() {
    let mut ctx = Context::new();
    ctx.set_packet_size(8192);
    assert_eq!(ctx.packet_size(), 8192);
}

#[test]
fn transaction_id_setter() {
    let mut ctx = Context::new();
    ctx.set_transaction_id(0xDEAD_BEEF_0000_0001);
    assert_eq!(ctx.transaction_id(), 0xDEAD_BEEF_0000_0001);
    assert_eq!(ctx.packet_size(), 4096);
}

#[test]
fn last_meta_is_shared() {
    let mut ctx = Context::new();
    let m = meta(&["a", "b"]);
    ctx.set_last_meta(m.clone());
    let got = ctx.last_meta().unwrap();
    assert!(Arc::ptr_eq(&got, &m));
    assert_eq!(got.column_count(), 2);
}

#[test]
fn held_meta_survives_replacement() {
    let mut ctx = Context::new();
    ctx.set_last_meta(meta(&["a", "b", "c"]));
    let held = ctx.last_meta().unwrap();
    ctx.set_last_meta(meta(&["x"]));
    assert_eq!(held.column_count(), 3);
    assert_eq!(held.columns[0].col_name, "a");
    assert_eq!(ctx.last_meta().unwrap().column_count(), 1);
}

#[test]
fn spn_is_built_from_host_and_port() {
    let mut ctx = Context::new();
    ctx.set_spn("db.example.com", 1433);
    assert_eq!(ctx.spn(), "MSSQLSvc/db.example.com:1433");
    ctx.set_spn("h", 0);
    assert_eq!(ctx.spn(), "MSSQLSvc/h:0");
    ctx.set_spn("h", 65535);
    assert_eq!(ctx.spn(), "MSSQLSvc/h:65535");
}

#[test]
fn encryption_level_codes() {
    assert_eq!(EncryptionLevel::NotSupported.code(), 2);
    assert_eq!(EncryptionLevel::from_code(3), Some(EncryptionLevel::Required));
    assert_eq!(EncryptionLevel::from_code(0), Some(EncryptionLevel::Off));
    assert_eq!(EncryptionLevel::from_code(4), None);
}
