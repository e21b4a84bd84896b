use vulhunt_engine::checker::{OneOrMany, resolve_extensions};
use vulhunt_engine::extensions::{DECOMPILER, resolve_names};
use vulhunt_engine::{CheckerError, CheckerExtensions};

#[derive(Debug, Clone, Copy, PartialEq, Eq)]
struct Names(u8);

impl bitflags::Flags for Names {
    const FLAGS: &'static [bitflags::Flag<Names>] = &[
        bitflags::Flag::new("DECOMPILER", Names(DECOMPILER)),
        bitflags::Flag::new("OTHER", Names(0b0000_0010)),
    ];
    type Bits = u8;

    fn bits(&self) -> u8 {
        self.0
    }

    fn from_bits_retain(bits: u8) -> Names {
        Names(bits)
    }
}

fn parse(text: &str) -> Option<CheckerExtensions> {
    match bitflags::parser::from_str_strict::<Names>(text) {
        Ok(names) => Some(CheckerExtensions { bits: names.0 }),
        Err(_) => None,
    }
}

fn names(list: &[&str]) -> Vec<String> {
    list.iter().map(|name| name.to_string()).collect()
}

fn resolved(list: &[&str]) -> u8 {
    match resolve_names(names(list), &parse) {
        Ok(extensions) => extensions.bits,
        Err(error) => panic!("{}", error.message()),
    }
}

#[test]
fn names_are_read_in_any_case() {
    assert_eq!(resolved(&["decompiler"]), DECOMPILER);
    assert_eq!(resolved(&["DeCoMpIlEr"]), DECOMPILER);
    assert_eq!(resolved(&["DECOMPILER"]), DECOMPILER);
}

#[test]
fn no_name_is_no_extension() {
    assert_eq!(resolved(&[]), 0);
    assert_eq!(resolved(&[""]), 0);
}

#[test]
fn names_add_up_in_any_order() {
    assert_eq!(resolved(&["other", "decompiler"]), 0b11);
    assert_eq!(resolved(&["decompiler", "other", "decompiler"]), 0b11);
    assert_eq!(resolved(&["decompiler | other"]), 0b11);
}

#[test]
fn the_first_unknown_name_is_the_error() {
    match resolve_names(names(&["decompiler", "fancy", "worse"]), &parse) {
        Err(CheckerError::Malformed(text)) => {
            assert_eq!(text, "unsupported language extension `FANCY`")
        }
        _ => panic!("an unknown name was taken"),
    }
}

#[test]
fn bits_outside_ascii_letters_stay() {
    match resolve_names(names(&["gr\u{f6}\u{df}e 0x1"]), &parse) {
        Err(error) => assert_eq!(
            error.message(),
            "malformed rule: unsupported language extension `GR\u{f6}\u{df}E 0X1`"
        ),
        Ok(_) => panic!("an unknown name was taken"),
    }
}

#[test]
fn extensions_are_optional() {
    match resolve_extensions(Ok(None), &parse) {
        Ok(extensions) => assert!(!extensions.requires_decompiler()),
        Err(error) => panic!("{}", error.message()),
    }
    match resolve_extensions(Ok(Some(OneOrMany::One("decompiler".to_string()))), &parse) {
        Ok(extensions) => assert!(extensions.requires_decompiler()),
        Err(error) => panic!("{}", error.message()),
    }
    match resolve_extensions(Err("bad value".to_string()), &parse) {
        Err(error) => assert_eq!(error.message(), "cannot parse and load checker: bad value"),
        Ok(_) => panic!("a bad value was taken"),
    }
}

#[test]
fn sets_of_extensions() {
    let none = CheckerExtensions::empty();
    let decompiler = CheckerExtensions { bits: DECOMPILER };
    let other = CheckerExtensions { bits: 0b10 };
    assert!(!none.requires_decompiler());
    assert!(decompiler.requires_decompiler());
    assert!(!other.requires_decompiler());
    assert!(other.union(decompiler).requires_decompiler());
    assert!(other.union(decompiler).contains(other));
    assert!(decompiler.contains(none));
    assert!(!none.contains(decompiler));
}
