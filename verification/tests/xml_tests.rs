use xdf::parse::{parse_version, str_to_format};
use xdf::Format;
use xdf::xmlio::get_text_from_child;
use xmltree::Element;

#[test]
#[allow(clippy::float_cmp)] // we're testing the version parses correctly, an exact comparison is fine
fn test_parse_version() {
    let mut root = Element::new("root");
    let mut version_element = Element::new("version");
    version_element
        .children
        .push(xmltree::XMLNode::Text("1.0".to_string()));
    root.children.push(xmltree::XMLNode::Element(version_element));

    let result = parse_version(&root);
    assert_eq!(f32::from_bits(result.unwrap()), 1.0);
}

#[test]
fn test_parse_version_missing_tag() {
    let root = Element::new("root");

    let result = parse_version(&root);
    assert!(result.is_err());
}

#[test]
fn test_parse_version_empty_tag() {
    let mut root = Element::new("root");
    let version_element = Element::new("version");
    root.children.push(xmltree::XMLNode::Element(version_element));

    let result = parse_version(&root);
    assert!(result.is_err());
}

#[test]
fn test_get_text_from_child() {
    let mut root = Element::new("root");
    let mut child_element = Element::new("child");
    let child_text = "value".to_string();

    child_element
        .children
        .push(xmltree::XMLNode::Text(child_text.clone()));

    root.children.push(xmltree::XMLNode::Element(child_element));

    let result = get_text_from_child(&root, "child");
    assert_eq!(result.unwrap(), child_text);
}

#[test]
fn test_get_text_from_child_missing_child() {
    let root = Element::new("root");

    let result = get_text_from_child(&root, "child");
    assert!(result.is_err());
}

#[test]
fn test_get_text_from_child_empty_child() {
    let mut root = Element::new("root");
    let child_element = Element::new("child");
    root.children.push(xmltree::XMLNode::Element(child_element));

    let result = get_text_from_child(&root, "child");
    assert!(result.is_err());
}

#[test]
fn format_names_case_insensitive() {
    assert_eq!(str_to_format("int8"), Some(Format::Int8));
    assert_eq!(str_to_format("Int16"), Some(Format::Int16));
    assert_eq!(str_to_format("INT32"), Some(Format::Int32));
    assert_eq!(str_to_format("int64"), Some(Format::Int64));
    assert_eq!(str_to_format("Float32"), Some(Format::Float32));
    assert_eq!(str_to_format("float64"), Some(Format::Float64));
    assert_eq!(str_to_format("DOUBLE64"), Some(Format::Float64));
    assert_eq!(str_to_format("string"), Some(Format::String));
    assert_eq!(str_to_format("int7"), None);
    assert_eq!(str_to_format(""), None);
}
