use executable_visualizer::file_loader::FileLoader;
use executable_visualizer::sections::{ExecutableFile, ParseError};

#[test]
fn loaded_file_is_returned() {
    let mut loader = FileLoader::default();
    let got = loader.receive(Some(Ok(ExecutableFile::load_dummy())));
    assert_eq!(got.map(|f| f.name), Some("dummy file".to_string()));
    assert!(loader.error.is_none());
}

#[test]
fn failed_load_is_kept_as_error() {
    let mut loader = FileLoader::default();
    assert!(loader.receive(Some(Err(ParseError::BadMagic))).is_none());
    assert_eq!(loader.error.as_deref(), Some("Magic ELF bytes were wrong."));
    assert!(loader.receive(None).is_none());
    assert_eq!(loader.error.as_deref(), Some("Magic ELF bytes were wrong."));
}

#[test]
fn sent_loads_arrive_in_order() {
    let mut loader = FileLoader::default();
    assert!(loader.recive_file_from_user().is_none());
    loader.tx.send(Err(ParseError::BadMagic)).unwrap();
    loader.tx.send(Ok(ExecutableFile::load_dummy())).unwrap();
    assert!(loader.recive_file_from_user().is_none());
    assert!(loader.error.is_some());
    assert_eq!(loader.recive_file_from_user().map(|f| f.name), Some("dummy file".to_string()));
}
