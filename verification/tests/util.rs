//! Single-component validation and reserved-name splitting.

use minifilepath::{
    is_valid_path_component, split_at_reserved_name, validate_path_component, FilePathError,
};

fn validate_path_component_(component: &str) -> Result<(), FilePathError> {
    validate_path_component(component, "")
}

#[test]
fn split_at_reserved_name_() {
    assert!(split_at_reserved_name("f").is_none());
    assert!(split_at_reserved_name("foo").is_none());
    assert!(split_at_reserved_name("comt").is_none());

    assert_eq!(split_at_reserved_name("fAuX.txt").unwrap(), ("f", ".txt"));
    assert_eq!(split_at_reserved_name(". PRnt").unwrap(), (". ", "t"));
    assert_eq!(split_at_reserved_name("NUL").unwrap(), ("", ""));
    assert_eq!(split_at_reserved_name("COM0").unwrap(), ("", ""));
    assert_eq!(split_at_reserved_name("fooCOM9").unwrap(), ("foo", ""));
    assert_eq!(split_at_reserved_name("COM7.").unwrap(), ("", "."));
    assert_eq!(split_at_reserved_name("CON7").unwrap(), ("", "7"));
    assert_eq!(split_at_reserved_name("acon ").unwrap(), ("a", " "));
    assert_eq!(
        split_at_reserved_name(" conin$ .txt").unwrap(),
        (" ", " .txt")
    );
    assert_eq!(split_at_reserved_name("CONOUT$.").unwrap(), ("", "."));
    assert_eq!(split_at_reserved_name("lpT0").unwrap(), ("", ""));
    assert_eq!(split_at_reserved_name("barlpt9").unwrap(), ("bar", ""));
}

#[allow(non_snake_case)]
#[test]
fn util_InvalidCharacter() {
    assert_eq!(
        validate_path_component_("/foo").err().unwrap(),
        FilePathError::InvalidCharacter(String::new(), '/')
    );
    assert_eq!(
        validate_path_component_("f/oo").err().unwrap(),
        FilePathError::InvalidCharacter(String::new(), '/')
    );
    assert_eq!(
        validate_path_component_("foo\\").err().unwrap(),
        FilePathError::InvalidCharacter(String::new(), '\\')
    );

    assert_eq!(
        validate_path_component_("C:foo").err().unwrap(),
        FilePathError::InvalidCharacter(String::new(), ':')
    );
    assert_eq!(
        validate_path_component_(":foo").err().unwrap(),
        FilePathError::InvalidCharacter(String::new(), ':')
    );

    assert_eq!(
        validate_path_component_("\"foo\"").err().unwrap(),
        FilePathError::InvalidCharacter(String::new(), '\"')
    );

    assert_eq!(
        validate_path_component_("foo?").err().unwrap(),
        FilePathError::InvalidCharacter(String::new(), '?')
    );

    assert_eq!(
        validate_path_component_("f*oo").err().unwrap(),
        FilePathError::InvalidCharacter(String::new(), '*')
    );

    assert_eq!(
        validate_path_component_("foo<").err().unwrap(),
        FilePathError::InvalidCharacter(String::new(), '<')
    );
    assert_eq!(
        validate_path_component_("foo>").err().unwrap(),
        FilePathError::InvalidCharacter(String::new(), '>')
    );

    assert_eq!(
        validate_path_component_("foo|").err().unwrap(),
        FilePathError::InvalidCharacter(String::new(), '|')
    );
    assert_eq!(
        validate_path_component_("foo\n").err().unwrap(),
        FilePathError::InvalidCharacter(String::new(), '\n')
    );
    assert_eq!(
        validate_path_component_("bar\x1b").err().unwrap(),
        FilePathError::InvalidCharacter(String::new(), '\x1b')
    );

    // But this works.
    assert!(validate_path_component_("foo").is_ok());
    assert!(validate_path_component_("βαρ").is_ok());
}

#[allow(non_snake_case)]
#[test]
fn util_ComponentEndsWithAPeriod() {
    assert_eq!(
        validate_path_component_("...").err().unwrap(),
        FilePathError::ComponentEndsWithAPeriod(String::new())
    );
    assert_eq!(
        validate_path_component_("foo.").err().unwrap(),
        FilePathError::ComponentEndsWithAPeriod(String::new())
    );
    assert_eq!(
        validate_path_component_("NUL.").err().unwrap(),
        FilePathError::ComponentEndsWithAPeriod(String::new())
    );
}

#[allow(non_snake_case)]
#[test]
fn util_ComponentEndsWithASpace() {
    assert_eq!(
        validate_path_component_("foo ").err().unwrap(),
        FilePathError::ComponentEndsWithASpace(String::new())
    );
    assert_eq!(
        validate_path_component_("foo . ").err().unwrap(),
        FilePathError::ComponentEndsWithASpace(String::new())
    );
    assert_eq!(
        validate_path_component_("LPT7 ").err().unwrap(),
        FilePathError::ComponentEndsWithASpace(String::new())
    );

    // But this works.
    validate_path_component_("foo .txt").unwrap();
}

#[allow(non_snake_case)]
#[test]
fn util_ReservedName() {
    assert_eq!(
        validate_path_component_("COM0").err().unwrap(),
        FilePathError::ReservedName(String::new())
    );
    assert_eq!(
        validate_path_component_("COM9").err().unwrap(),
        FilePathError::ReservedName(String::new())
    );
    assert_eq!(
        validate_path_component_("CON").err().unwrap(),
        FilePathError::ReservedName(String::new())
    );
    assert_eq!(
        validate_path_component_(" AUX").err().unwrap(),
        FilePathError::ReservedName(String::new())
    );
    assert_eq!(
        validate_path_component_("NUL.txt").err().unwrap(),
        FilePathError::ReservedName(String::new())
    );
    assert_eq!(
        validate_path_component_("LPT0 .txt.bmp").err().unwrap(),
        FilePathError::ReservedName(String::new())
    );
    assert_eq!(
        validate_path_component_("LPT9").err().unwrap(),
        FilePathError::ReservedName(String::new())
    );
    assert_eq!(
        validate_path_component_("CONIN$.txt").err().unwrap(),
        FilePathError::ReservedName(String::new())
    );
    assert_eq!(
        validate_path_component_("CONIN$.txt.bmp").err().unwrap(),
        FilePathError::ReservedName(String::new())
    );
    assert_eq!(
        validate_path_component_("CONOUT$ . bmp").err().unwrap(),
        FilePathError::ReservedName(String::new())
    );

    // But this works.
    validate_path_component_("faux").unwrap();
    validate_path_component_("COM").unwrap();
    validate_path_component_("COM11").unwrap();
    validate_path_component_("CON1").unwrap();
    validate_path_component_("CONI").unwrap();
    validate_path_component_("CONIN").unwrap();
    validate_path_component_("CONO").unwrap();
    validate_path_component_("CONOU").unwrap();
    validate_path_component_("CONOUT").unwrap();
    validate_path_component_("COM71").unwrap();
    validate_path_component_("LPT").unwrap();
    validate_path_component_("lpt10").unwrap();
    validate_path_component_(".NUL").unwrap();
    validate_path_component_("foo.PRN").unwrap();
}

#[allow(non_snake_case)]
#[test]
fn util_ComponentTooLong() {
    assert_eq!(
        validate_path_component_(&"x".repeat(256)).err().unwrap(),
        FilePathError::ComponentTooLong(String::new(), 256)
    );
    validate_path_component_(&"x".repeat(255)).unwrap();
}

#[test]
fn valid_path_component() {
    assert!(is_valid_path_component("foo"));
    assert!(is_valid_path_component("foo bar.txt"));
    assert!(is_valid_path_component("βαρ"));
    assert!(!is_valid_path_component(""));
    assert!(!is_valid_path_component("."));
    assert!(!is_valid_path_component(".."));
    assert!(!is_valid_path_component("NUL"));
    assert!(!is_valid_path_component("nul"));
    assert!(!is_valid_path_component("NUL.txt"));
    assert!(!is_valid_path_component("  AUX"));
    assert!(is_valid_path_component("NULL"));
    assert!(is_valid_path_component("AUXILIARY"));
    assert!(is_valid_path_component(".NUL"));
    assert!(is_valid_path_component("fooNUL"));
    assert!(is_valid_path_component("CONIN"));
    assert!(!is_valid_path_component("foo/bar"));
    assert!(!is_valid_path_component("foo."));
}
