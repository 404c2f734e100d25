use oxdb_engine::doc::prop::gen_block_size;

#[test]
fn gen_block_size_prefers_the_probed_size() {
    assert_eq!(gen_block_size(Some(8192)), 8192);
    assert_eq!(gen_block_size(Some(512)), 512);
}

#[test]
fn gen_block_size_falls_back_to_default() {
    assert_eq!(gen_block_size(None), 4096);
}
