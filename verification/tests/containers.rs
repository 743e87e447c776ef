use hybrid_search::containers::{Config, ContainerError, ContainerInfo, get_table_name};

#[test]
fn table_name_keeps_harmless_characters() {
    assert_eq!(get_table_name("Default"), "c_Default");
    assert_eq!(get_table_name("my_notes-2.bak"), "c_my_notes-2.bak");
}

#[test]
fn table_name_escapes_other_characters_as_hex() {
    assert_eq!(get_table_name("my docs"), "c_my0020docs");
    assert_eq!(get_table_name("ara\u{e7}"), "c_ara00e7");
    assert_eq!(get_table_name(""), "c_");
}

#[test]
fn default_config_has_active_default_container() {
    let c = Config::default();
    assert_eq!(c.active_container, "Default");
    assert_eq!(c.embedding_model, "MultilingualE5Base");
    assert_eq!(c.containers.len(), 1);
    assert_eq!(c.containers[0].0, "Default");
    assert!(c.containers[0].1.indexed_paths.is_empty());
}

#[test]
fn create_container_rejects_duplicate_names() {
    let mut c = Config::default();
    assert!(c.create_container("work".to_string(), "work files".to_string()).is_ok());
    let r = c.create_container("work".to_string(), "again".to_string());
    assert_eq!(r, Err(ContainerError::AlreadyExists));
    assert_eq!(c.containers.len(), 2);
}

#[test]
fn delete_container_protects_default() {
    let mut c = Config::default();
    let r = c.delete_container("Default");
    assert_eq!(r, Err(ContainerError::ProtectedDeletion));
    assert_eq!(c.containers.len(), 1);
}

#[test]
fn delete_active_container_falls_back_to_default() {
    let mut c = Config::default();
    c.create_container("work".to_string(), String::new()).unwrap();
    c.set_active_container("work".to_string()).unwrap();
    assert_eq!(c.active_container, "work");
    c.delete_container("work").unwrap();
    assert_eq!(c.active_container, "Default");
    assert_eq!(c.containers.len(), 1);
}

#[test]
fn delete_missing_container_is_not_an_error() {
    let mut c = Config::default();
    assert!(c.delete_container("ghost").is_ok());
}

#[test]
fn set_active_container_rejects_unknown_names() {
    let mut c = Config::default();
    let r = c.set_active_container("ghost".to_string());
    assert_eq!(r, Err(ContainerError::UnknownContainer));
    assert_eq!(c.active_container, "Default");
}

#[test]
fn record_path_adds_each_directory_once() {
    let mut info = ContainerInfo { description: String::new(), indexed_paths: Vec::new() };
    info.record_path("/tmp/a".to_string());
    info.record_path("/tmp/b".to_string());
    info.record_path("/tmp/a".to_string());
    assert_eq!(info.indexed_paths, vec!["/tmp/a", "/tmp/b"]);
}

#[test]
fn container_error_messages() {
    assert_eq!(ContainerError::AlreadyExists.message(), "Container already exists");
    assert_eq!(ContainerError::ProtectedDeletion.message(), "Cannot delete Default container");
    assert_eq!(ContainerError::UnknownContainer.message(), "Container does not exist");
}
