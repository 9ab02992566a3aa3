use enprot::cas::{cas_file_name, check_cas_entry};

#[test]
fn entry_names() {
    assert_eq!(cas_file_name(&[0x0f, 0xa0]), "0fa0.cas");
    assert_eq!(cas_file_name(&[]), ".cas");
}

#[test]
fn entry_integrity() {
    assert_eq!(check_cas_entry("0fa0", &[0x0f, 0xa0]), Ok(()));
    assert_eq!(check_cas_entry("0fa1", &[0x0f, 0xa0]), Err("CAS corruption"));
    assert_eq!(check_cas_entry("0FA0", &[0x0f, 0xa0]), Err("CAS corruption"));
}
