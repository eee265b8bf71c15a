use vstd::prelude::*;

verus! {

#[verifier::external_type_specification]
#[verifier::external_body]
pub struct ExElement(xmltree::Element);

#[verifier::external_type_specification]
#[verifier::external_body]
pub struct ExXmlError(xmltree::Error);

/// Relies on xmltree::Element::parse: builds an XML tree from bytes, or
/// nothing when the bytes are not a well-formed XML document.
#[verifier::external_body]
pub fn xml_parse(bytes: &[u8]) -> Option<xmltree::Element> {
    xmltree::Element::parse(bytes).ok()
}

/// Relies on xmltree::Element::get_child: the first child element with the
/// given name, if any.
#[verifier::external_body]
pub fn xml_get_child<'a>(e: &'a xmltree::Element, name: &str) -> Option<&'a xmltree::Element> {
    e.get_child(name)
}

/// Relies on xmltree::Element::get_text: the concatenated text content of an
/// element, or nothing when it holds no text.
#[verifier::external_body]
pub fn xml_get_text(e: &xmltree::Element) -> Option<String> {
    e.get_text().map(|t| t.into_owned())
}

/// Relies on xmltree::Element::new: a fresh element with the given name and
/// no children.
#[verifier::external_body]
pub fn xml_new(name: &str) -> xmltree::Element {
    xmltree::Element::new(name)
}

/// Relies on xmltree::Element::write: the XML document serialized to bytes.
#[verifier::external_body]
pub fn xml_write(e: &xmltree::Element) -> Result<Vec<u8>, xmltree::Error> {
    let mut out: Vec<u8> = Vec::new();
    e.write(&mut out)?;
    Ok(out)
}

/// Relies on xmltree::Element::new and XMLNode: appends `<name>text</name>`
/// to the children of `e`.
#[verifier::external_body]
pub fn xml_add_text_child(e: &mut xmltree::Element, name: &str, text: &str) {
    let mut child = xmltree::Element::new(name);
    child.children.push(xmltree::XMLNode::Text(text.to_string()));
    e.children.push(xmltree::XMLNode::Element(child));
}

/// Relies on xmltree::Element::take_child: removes and returns the first
/// child element with the given name, if any.
#[verifier::external_body]
pub fn xml_take_child(e: &mut xmltree::Element, name: &str) -> Option<xmltree::Element> {
    e.take_child(name)
}

/// Relies on xmltree::Element::new and XMLNode: appends an already-built
/// element to the children of `e`.
#[verifier::external_body]
pub fn xml_add_element_child(e: &mut xmltree::Element, child: xmltree::Element) {
    e.children.push(xmltree::XMLNode::Element(child));
}

/// Relies on xmltree::Element's Clone: a deep copy of an XML tree.
#[verifier::external_body]
pub fn xml_clone(e: &xmltree::Element) -> xmltree::Element {
    e.clone()
}

/// The text of the named child of `root`, when both the child and its text
/// exist; a missing child or empty text is reported under the child's name.
pub fn get_text_from_child(root: &xmltree::Element, child_name: &str) -> (r: Result<
    String,
    crate::errors::XDFError,
>)
    ensures
        r matches Err(e) ==> (e matches crate::errors::XDFError::Xml(
            crate::errors::XMLError::BadElement(n),
        ) && n@ == child_name@),
{
    match xml_get_child(root, child_name) {
        None => Err(
            crate::errors::XDFError::Xml(
                crate::errors::XMLError::BadElement(copy_str(child_name)),
            ),
        ),
        Some(child) => match xml_get_text(child) {
            None => Err(
                crate::errors::XDFError::Xml(
                    crate::errors::XMLError::BadElement(copy_str(child_name)),
                ),
            ),
            Some(text) => Ok(text),
        },
    }
}

/// An owned copy of a borrowed string.
pub fn copy_str(s: &str) -> (r: String)
    ensures
        r@ == s@,
{
    s.to_owned()
}

} // verus!
