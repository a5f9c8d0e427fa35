use postgresql_archive::error::ArchiveError;
use postgresql_archive::extensions::{portal_corp_url, PortalCorp};
use postgresql_archive::registry::Registry;
use std::io::Write;

#[test]
fn test_name() {
    let repository = PortalCorp;
    assert_eq!("portal-corp", repository.name());
}

#[test]
fn test_get_available_extensions() {
    let repository = PortalCorp;
    let extensions = repository.get_available_extensions().unwrap();
    let extension = &extensions[0];

    assert_eq!("pgvector_compiled", extension.name());
    assert_eq!("Precompiled OS packages for pgvector", extension.description());
}

#[test]
fn test_new() {
    assert!(PortalCorp::new().is_ok());
}

#[test]
fn test_initialize_registers_both() {
    let mut matchers: Registry<String> = Registry::new();
    let mut catalogs: Registry<String> = Registry::new();
    PortalCorp::initialize(&mut matchers, &mut catalogs).unwrap();
    assert_eq!("portal-corp", matchers.resolve(portal_corp_url()).unwrap());
    assert_eq!("github", catalogs.resolve(portal_corp_url()).unwrap());

    let again = PortalCorp::initialize(&mut matchers, &mut catalogs);
    assert!(matches!(again, Err(ArchiveError::RegistrationConflict(_))));
}

#[test]
fn test_archive_url() {
    let repository = PortalCorp;
    let url = repository.archive_url("16.4.3", "pgvector_compiled");
    assert_eq!(
        format!("{}/pgvector_compiled?postgresql_version=16.4.3", portal_corp_url()),
        url
    );
}

fn zip_bundle() -> Vec<u8> {
    let cursor = std::io::Cursor::new(Vec::new());
    let mut writer = zip::ZipWriter::new(cursor);
    let options = zip::write::SimpleFileOptions::default();
    writer.start_file("pkg/vector.so", options).unwrap();
    writer.write_all(b"shared library bytes").unwrap();
    writer.start_file("pkg/vector.control", options).unwrap();
    writer.write_all(b"default_version = '0.8.0'").unwrap();
    writer.start_file("pkg/README.txt", options).unwrap();
    writer.write_all(b"ignored").unwrap();
    writer.finish().unwrap().into_inner()
}

#[test]
fn test_install_routes_by_suffix() {
    let repository = PortalCorp;
    let bundle = zip_bundle();
    let files = repository.install("/tmp/lib", "/tmp/extension", &bundle).unwrap();
    assert_eq!(2, files.len());
    assert_eq!("/tmp/lib/vector.so", files[0].path);
    assert_eq!(b"shared library bytes".to_vec(), files[0].data);
    assert_eq!("/tmp/extension/vector.control", files[1].path);
    assert_eq!(b"default_version = '0.8.0'".to_vec(), files[1].data);
}

#[test]
fn test_install_rejects_garbage() {
    let repository = PortalCorp;
    let garbage: Vec<u8> = vec![9, 9, 9];
    assert!(repository.install("/tmp/lib", "/tmp/extension", &garbage).is_err());
}
