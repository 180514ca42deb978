use vstd::prelude::*;

verus! {

/// One element of a parsed XML document: its tag name, its attributes in
/// document order, the text directly under it (if its first child is a text
/// node), and its element children in document order.
///
/// This is the crate's own picture of an element tree; building it from raw
/// document text is delegated to the `roxmltree` crate below.
pub struct XmlElement {
    pub tag: String,
    pub attrs: Vec<(String, String)>,
    pub text: Option<String>,
    pub children: Vec<XmlElement>,
}

/// The mathematical content of an `XmlElement`.
pub ghost struct XmlView {
    pub tag: Seq<char>,
    pub attrs: Seq<(Seq<char>, Seq<char>)>,
    pub text: Option<Seq<char>>,
    pub children: Seq<XmlView>,
}

/// The view of an element, taken recursively over its children.
pub open spec fn xml_view(e: XmlElement) -> XmlView
    decreases e,
{
    XmlView {
        tag: e.tag@,
        attrs: e.attrs.deep_view(),
        text: e.text.deep_view(),
        children: xml_views(e.children@),
    }
}

/// The views of a sequence of elements, in order.
pub open spec fn xml_views(cs: Seq<XmlElement>) -> Seq<XmlView>
    decreases cs,
{
    if cs.len() == 0 {
        Seq::empty()
    } else {
        seq![xml_view(cs[0])] + xml_views(cs.drop_first())
    }
}

/// `xml_views` is the pointwise view of its argument.
pub proof fn lemma_xml_views_index(cs: Seq<XmlElement>)
    ensures
        xml_views(cs).len() == cs.len(),
        forall|i: int| 0 <= i < cs.len() ==> xml_views(cs)[i] == xml_view(cs[i]),
    decreases cs.len(),
{
    if cs.len() > 0 {
        lemma_xml_views_index(cs.drop_first());
    }
}

impl View for XmlElement {
    type V = XmlView;

    open spec fn view(&self) -> XmlView {
        xml_view(*self)
    }
}

#[verifier::external_type_specification]
#[verifier::external_body]
pub struct ExXmlNode<'a, 'input: 'a>(roxmltree::Node<'a, 'input>);

/// The element tree that the document text parses to, or `None` when the
/// text is not well-formed XML.
pub uninterp spec fn xml_tree_of(text: Seq<char>) -> Option<XmlView>;

/// Relies on `roxmltree::Document::parse`: parsing is deterministic in the
/// document text, so the resulting element tree (or the parse failure) is a
/// function of the text alone. The tree is copied over by `element_of_node`;
/// on failure the parser's error message is handed back.
#[verifier::external_body]
pub(crate) fn parse_xml(text: &str) -> (r: Result<XmlElement, String>)
    ensures
        match r {
            Ok(root) => xml_tree_of(text@) == Some(root@),
            Err(_) => xml_tree_of(text@) is None,
        },
{
    match roxmltree::Document::parse(text) {
        Ok(doc) => Ok(element_of_node(doc.root_element())),
        Err(e) => Err(format!("{}", e)),
    }
}

/// Relies on `roxmltree::Node`'s accessors (`tag_name`, `attributes`,
/// `text`, `children`, `is_element`): copies one element node of the parsed
/// tree, and recursively its element children, into the crate's own element
/// type.
#[verifier::external_body]
fn element_of_node(node: roxmltree::Node<'_, '_>) -> XmlElement {
    XmlElement {
        tag: node.tag_name().name().to_string(),
        attrs: node.attributes().map(|a| (a.name().to_string(), a.value().to_string())).collect(),
        text: node.text().map(|t| t.to_string()),
        children: node.children().filter(|c| c.is_element()).map(element_of_node).collect(),
    }
}

} // verus!
