use automata::header::Action;
use automata::header::HeaderElement;
use automata::header::HeaderToken;

#[test]
fn element_length_counts_attributes_and_match() {
    let mut element = HeaderElement::new(HeaderToken::Use, String::from("use std::fmt;\n"));
    assert_eq!(element.len(), 14);
    assert_eq!(element.to_string(), "use std::fmt;\n");
    element.attrs = vec![String::from("#[allow(x)]\n"), String::from("#[é]\n")];
    assert_eq!(element.len(), 14 + 12 + 6);
    assert_eq!(element.to_string(), "#[allow(x)]\n#[é]\nuse std::fmt;\n");
    assert_eq!(element.token, HeaderToken::Use);
    assert_ne!(Action::Format, Action::Preview);
}
