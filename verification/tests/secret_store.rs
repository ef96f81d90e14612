use vi::secret::{
    decrypt_api_key, derive_key, encrypt_api_key, get_api_key, get_workflow_id, hex_decode, hex_encode, xor_decrypt,
    KeyFile, SecretStore,
};

#[test]
fn hex_roundtrip() {
    let data = vec![0u8, 1, 0xab, 0xff, 0x10];
    let h = hex_encode(&data);
    assert_eq!(h, "0001abff10");
    assert_eq!(hex_decode(&h), Some(data));
    assert_eq!(hex_decode("ABcd"), Some(vec![0xab, 0xcd]));
    assert_eq!(hex_decode("+a"), Some(vec![10]));
    assert_eq!(hex_decode("abc"), None);
    assert_eq!(hex_decode("zz"), None);
}

#[test]
fn xor_is_an_involution() {
    let key = vec![1u8, 2, 3];
    let data = b"hello world".to_vec();
    let enc = xor_decrypt(&data, &key);
    assert_ne!(enc, data);
    assert_eq!(xor_decrypt(&enc, &key), data);
    assert!(xor_decrypt(&[], &[]).is_empty());
}

#[test]
fn key_survives_save_and_load() {
    let secs = 1_700_000_000u64;
    assert!(!derive_key(secs).is_empty());
    let content = encrypt_api_key("sk-test-123", secs);
    assert_ne!(content, "sk-test-123");
    assert_eq!(decrypt_api_key(&content, secs).as_deref(), Some("sk-test-123"));

    let mut store = SecretStore::new();
    let written = store.save_key("sk-test-123", Some(secs)).unwrap();
    assert_eq!(written, content);
    let mut fresh = SecretStore::new();
    fresh.load_key(&KeyFile::Read { content: written, created_secs: Some(secs) }, Some("  wf-1 \n"));
    assert_eq!(get_api_key(&fresh).as_deref(), Some("sk-test-123"));
    assert_eq!(get_workflow_id(&fresh).as_deref(), Some("wf-1"));
}

#[test]
fn store_edge_cases() {
    let mut store = SecretStore::new();
    assert_eq!(store.save_key("", Some(5)), None);
    assert_eq!(store.save_key("k", None), None);
    assert_eq!(get_api_key(&store), None);
    store.load_key(&KeyFile::Unreadable, Some("wf"));
    assert_eq!(get_workflow_id(&store), None);
    store.load_key(&KeyFile::Missing, Some("   "));
    assert_eq!(get_workflow_id(&store), None);
    assert!(store.save_workflow_id("wf-2"));
    assert_eq!(get_workflow_id(&store).as_deref(), Some("wf-2"));
}
