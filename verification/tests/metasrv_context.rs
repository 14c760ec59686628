use procedure_store::metasrv::{Context, LeaderValue, MemStore, MetaSrvOptions, SelectorType, TABLE_ID_SEQ};

#[test]
fn default_options() {
    let options = MetaSrvOptions::default();
    assert_eq!("127.0.0.1:3002", options.bind_addr);
    assert_eq!("127.0.0.1:3002", options.server_addr);
    assert_eq!("127.0.0.1:2379", options.store_addr);
    assert_eq!(15, options.datanode_lease_secs);
    assert_eq!(SelectorType::LeaseBased, options.selector);
    assert!(!options.use_memory_store);
    assert_eq!("table_id", TABLE_ID_SEQ);
}

#[test]
fn context_skip_all() {
    let options = MetaSrvOptions::default();
    let mut ctx = Context::new(&options, MemStore::new());
    assert!(!ctx.is_skip_all());
    assert_eq!(15, ctx.datanode_lease_secs);
    assert_eq!("127.0.0.1:3002", ctx.server_addr);
    assert!(ctx.catalog.is_none() && ctx.schema.is_none() && ctx.table.is_none());
    ctx.set_skip_all();
    assert!(ctx.is_skip_all());
    ctx.set_skip_all();
    assert!(ctx.is_skip_all());
    assert_eq!(15, ctx.datanode_lease_secs);
}

#[test]
fn context_reset_in_memory() {
    let mut store = MemStore::new();
    store.entries.push((b"k".to_vec(), b"v".to_vec()));
    let mut ctx = Context::new(&MetaSrvOptions::default(), store);
    ctx.table = Some("t".to_string());
    assert_eq!(1, ctx.in_memory.entries.len());
    ctx.reset_in_memory();
    assert!(ctx.in_memory.entries.is_empty());
    assert_eq!(Some("t".to_string()), ctx.table);
    assert!(!ctx.is_skip_all());
}

#[test]
fn leader_value_holds_its_text() {
    let leader = LeaderValue("127.0.0.1:3002".to_string());
    assert_eq!("127.0.0.1:3002", leader.0);
}
