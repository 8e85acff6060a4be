use schema_engine::names::{Identifier, NameTable, NameTableError};

#[test]
fn interning_returns_the_existing_identifier() {
    let mut names = NameTable::new();
    let beat = names.intern(&"Beat".to_owned());
    let tick = names.intern(&"Tick".to_owned());
    let again = names.intern(&"Beat".to_owned());
    assert_eq!(beat, Identifier(0));
    assert_eq!(tick, Identifier(1));
    assert_eq!(again, beat);
    assert_eq!(names.len(), 2);
    assert_eq!(names.resolve(beat).unwrap(), "Beat");
    assert_eq!(names.resolve(tick).unwrap(), "Tick");
}

#[test]
fn an_unknown_identifier_does_not_resolve() {
    let mut names = NameTable::new();
    names.intern(&"Beat".to_owned());
    assert_eq!(
        names.resolve(Identifier(1)).err(),
        Some(NameTableError::UnknownIdentifier(Identifier(1)))
    );
}
