use asset_tree::{Error, ErrorKind};

#[derive(Debug)]
struct Denied(u32);

impl std::fmt::Display for Denied {
    fn fmt(&self, f: &mut std::fmt::Formatter<'_>) -> std::fmt::Result {
        f.write_str("permission denied (")?;
        self.0.fmt(f)?;
        f.write_str(")")
    }
}

#[test]
fn a_loader_error_keeps_its_cause() {
    let e = Error::loader("assets/shaders".to_string(), Denied(13));
    assert!(matches!(e.kind, ErrorKind::Loader(Denied(13))));
}

#[test]
fn a_deserialization_error_keeps_its_message() {
    let e: Error<Denied> =
        Error::deserialization("assets/a".to_string(), "invalid utf-8".to_string());
    assert!(matches!(&e.kind, ErrorKind::Deserialization(message) if message == "invalid utf-8"));
}

#[test]
fn a_loader_error_is_written_with_its_location_and_cause() {
    let e = Error::loader("assets/shaders".to_string(), Denied(13));
    assert_eq!(e.message("denied"), "Error loading asset at assets/shaders: denied");
    assert_eq!(e.to_string(), "Error loading asset at assets/shaders: permission denied (13)");
}

#[test]
fn a_deserialization_error_is_written_with_its_location_and_message() {
    let e: Error<Denied> =
        Error::deserialization("assets/a".to_string(), "invalid utf-8".to_string());
    assert_eq!(e.message("unused"), "Error deserializing asset at assets/a: invalid utf-8");
    assert_eq!(e.to_string(), "Error deserializing asset at assets/a: invalid utf-8");
}

#[test]
fn an_error_is_written_with_empty_parts() {
    let e = Error::loader(String::new(), Denied(0));
    assert_eq!(e.message(""), "Error loading asset at : ");
    let e: Error<Denied> = Error::deserialization(String::new(), String::new());
    assert_eq!(e.message(""), "Error deserializing asset at : ");
}
