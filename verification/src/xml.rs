//! The document a map is read from: its nodes in document order, each with
//! its tag, its attributes and its parent, and the questions the importer
//! asks of them.

use vstd::prelude::*;

use crate::text::{chars_of, find, find_from, lemma_find_from, push_range, same_text, string_of};

verus! {

/// Why a document is not well-formed XML, as the XML reader reports it.
#[verifier::external_type_specification]
#[verifier::external_body]
pub struct ExXmlError(roxmltree::Error);

/// One attribute, as the document spells it.
pub struct XmlAttribute {
    /// The namespace URI it is qualified by, if any.
    pub namespace: Option<String>,
    /// Its local name.
    pub name: String,
    /// Its value, with references resolved.
    pub value: String,
}

/// The characters of an attribute.
pub struct XmlAttributeView {
    pub namespace: Option<Seq<char>>,
    pub name: Seq<char>,
    pub value: Seq<char>,
}

impl View for XmlAttribute {
    type V = XmlAttributeView;

    open spec fn view(&self) -> XmlAttributeView {
        XmlAttributeView {
            namespace: match self.namespace {
                Some(n) => Some(n@),
                None => None,
            },
            name: self.name@,
            value: self.value@,
        }
    }
}

/// One node of a document: the root, an element, or the text, comments and
/// processing instructions between them.
pub struct XmlNode {
    /// Whether the node is an element.
    pub element: bool,
    /// An element's local name; empty for any other node.
    pub tag: String,
    /// The position of the node it sits in; `None` for the root alone.
    pub parent: Option<usize>,
    /// An element's attributes, in document order.
    pub attributes: Vec<XmlAttribute>,
}

/// What a node holds, as characters and positions.
pub struct XmlNodeView {
    pub element: bool,
    pub tag: Seq<char>,
    pub parent: Option<usize>,
    pub attributes: Seq<XmlAttributeView>,
}

impl View for XmlNode {
    type V = XmlNodeView;

    open spec fn view(&self) -> XmlNodeView {
        XmlNodeView {
            element: self.element,
            tag: self.tag@,
            parent: self.parent,
            attributes: self.attributes@.map_values(|a: XmlAttribute| a@),
        }
    }
}

/// The nodes the XML reader makes of `text`, in document order, or `None`
/// if `text` is not a well-formed document.
pub uninterp spec fn parsed_xml(text: Seq<char>) -> Option<Seq<XmlNodeView>>;

/// A sequence of nodes, as characters and positions.
pub open spec fn nodes_view(nodes: Seq<XmlNode>) -> Seq<XmlNodeView> {
    nodes.map_values(|n: XmlNode| n@)
}

/// The shape every parsed document has: the root first, with no parent;
/// every other node after the node it sits in; and at least one element
/// directly under the root.
pub open spec fn is_tree(nodes: Seq<XmlNodeView>) -> bool {
    &&& nodes.len() >= 1
    &&& !nodes[0].element
    &&& nodes[0].parent is None
    &&& forall|i: int|
        #![trigger nodes[i]]
        0 < i < nodes.len() ==> (nodes[i].parent matches Some(p) && (p as int) < i)
    &&& exists|i: int|
        #![trigger nodes[i]]
        0 < i < nodes.len() && nodes[i].element && nodes[i].parent == Some(0usize)
}

/// Reads `text` as XML with `roxmltree::Document::parse`, and lists its
/// nodes in document order: what each is, its local name, its parent's
/// position, and its attributes. Claimed of roxmltree: the listing is a
/// function of `text` alone; the root comes first and has no parent; every
/// other node comes after its parent; and a document it accepts has an
/// element under the root.
#[verifier::external_body]
fn parse_xml(text: &str) -> (r: Result<Vec<XmlNode>, roxmltree::Error>)
    ensures
        r is Ok <==> parsed_xml(text@) is Some,
        r matches Ok(nodes) ==> nodes_view(nodes@) == parsed_xml(text@)->0,
        r matches Ok(nodes) ==> is_tree(nodes_view(nodes@)),
{
    let doc = roxmltree::Document::parse(text)?;
    Ok(doc.descendants().map(|n| XmlNode {
        element: n.is_element(),
        tag: n.tag_name().name().to_string(),
        parent: n.parent().map(|p| p.id().get_usize()),
        attributes: n.attributes().map(|a| XmlAttribute {
            namespace: a.namespace().map(str::to_string),
            name: a.name().to_string(),
            value: a.value().to_string(),
        }).collect(),
    }).collect())
}

/// `s` without the byte-order marks it starts with.
pub open spec fn without_bom(s: Seq<char>) -> Seq<char>
    decreases s.len(),
{
    if s.len() > 0 && s[0] == '\u{feff}' {
        without_bom(s.drop_first())
    } else {
        s
    }
}

/// `s` made parseable: its leading byte-order marks stripped, and its first
/// `<?xml ... ?>` declaration cut out, from the `<?xml` to the first `?>`
/// after it. A document with no closed declaration keeps all it has.
pub open spec fn sanitized(s: Seq<char>) -> Seq<char> {
    let t = without_bom(s);
    match find_from(t, "<?xml"@, 0) {
        Some(start) => match find_from(t, "?>"@, start) {
            Some(end) => t.subrange(0, start) + t.subrange(end + 2, t.len() as int),
            None => t,
        },
        None => t,
    }
}

/// Make a real-world document parseable: strip a byte-order mark and remove
/// the `<?xml ... ?>` declaration. Exporters write a licence comment before
/// the declaration, which strict readers refuse, and the declaration only
/// names a version and an encoding that are not needed.
pub fn sanitize(xml: &str) -> (r: String)
    ensures
        r@ == sanitized(xml@),
{
    let s = chars_of(xml);
    let mut b: usize = 0;
    assert(s@.subrange(0, s.len() as int) =~= s@);
    while b < s.len() && s[b] == '\u{feff}'
        invariant
            b <= s.len(),
            without_bom(s@) == without_bom(s@.subrange(b as int, s.len() as int)),
        decreases s.len() - b,
    {
        assert(s@.subrange(b as int, s.len() as int).drop_first()
            =~= s@.subrange(b + 1, s.len() as int));
        b = b + 1;
    }
    let mut t: Vec<char> = Vec::new();
    push_range(&mut t, &s, b, s.len());
    assert(t@ =~= without_bom(s@));
    let open = chars_of("<?xml");
    let close = chars_of("?>");
    proof {
        reveal_strlit("?>");
    }
    if let Some(start) = find(&t, &open, 0) {
        if let Some(end) = find(&t, &close, start) {
            let mut out: Vec<char> = Vec::new();
            push_range(&mut out, &t, 0, start);
            push_range(&mut out, &t, end + 2, t.len());
            return string_of(out);
        }
    }
    string_of(t)
}

/// The positions, in order, of those of the first `k` nodes whose parent is
/// `node`.
pub open spec fn children_upto(nodes: Seq<XmlNodeView>, node: int, k: int) -> Seq<usize>
    decreases k,
{
    if k <= 0 {
        Seq::empty()
    } else {
        let rest = children_upto(nodes, node, k - 1);
        if nodes[k - 1].parent == Some(node as usize) {
            rest.push((k - 1) as usize)
        } else {
            rest
        }
    }
}

/// The positions of the nodes directly inside `node`, in document order.
pub open spec fn children_of(nodes: Seq<XmlNodeView>, node: int) -> Seq<usize> {
    children_upto(nodes, node, nodes.len() as int)
}

/// Whether `n` is an element whose local name is `tag`.
pub open spec fn named(n: XmlNodeView, tag: Seq<char>) -> bool {
    n.element && n.tag == tag
}

/// The first of `list[k..]` that is an element named `tag`.
pub open spec fn first_named(nodes: Seq<XmlNodeView>, list: Seq<usize>, tag: Seq<char>, k: int) -> Option<usize>
    decreases list.len() - k,
{
    if k < 0 || k >= list.len() {
        None
    } else if named(nodes[list[k] as int], tag) {
        Some(list[k])
    } else {
        first_named(nodes, list, tag, k + 1)
    }
}

/// Those of `list[..k]` that are elements named `tag`, in order.
pub open spec fn all_named(nodes: Seq<XmlNodeView>, list: Seq<usize>, tag: Seq<char>, k: int) -> Seq<usize>
    decreases k,
{
    if k <= 0 {
        Seq::empty()
    } else {
        let rest = all_named(nodes, list, tag, k - 1);
        if named(nodes[list[k - 1] as int], tag) {
            rest.push(list[k - 1])
        } else {
            rest
        }
    }
}

/// The value of the first of `attrs[k..]` named `name` in no namespace.
pub open spec fn attribute_from(attrs: Seq<XmlAttributeView>, name: Seq<char>, k: int) -> Option<Seq<char>>
    decreases attrs.len() - k,
{
    if k < 0 || k >= attrs.len() {
        None
    } else if attrs[k].namespace is None && attrs[k].name == name {
        Some(attrs[k].value)
    } else {
        attribute_from(attrs, name, k + 1)
    }
}

/// The characters of an optional string.
pub open spec fn text_view(s: Option<&str>) -> Option<Seq<char>> {
    match s {
        Some(s) => Some(s@),
        None => None,
    }
}

/// A parsed document: its nodes in document order, and for each node the
/// positions of the nodes directly inside it.
pub struct Document {
    nodes: Vec<XmlNode>,
    children: Vec<Vec<usize>>,
}

impl View for Document {
    type V = Seq<XmlNodeView>;

    closed spec fn view(&self) -> Seq<XmlNodeView> {
        nodes_view(self.nodes@)
    }
}

/// Every node among the first `k` whose parent is `node` is listed among
/// its children.
proof fn lemma_child_listed(nodes: Seq<XmlNodeView>, node: int, k: int, j: int)
    requires
        0 <= j < k <= nodes.len(),
        nodes[j].parent == Some(node as usize),
    ensures
        children_upto(nodes, node, k).contains(j as usize),
    decreases k,
{
    if j < k - 1 {
        lemma_child_listed(nodes, node, k - 1, j);
        let rest = children_upto(nodes, node, k - 1);
        assert(rest.contains(j as usize));
        if nodes[k - 1].parent == Some(node as usize) {
            assert(rest.push((k - 1) as usize)[rest.index_of(j as usize)] == j as usize);
        }
    } else {
        let rest = children_upto(nodes, node, k - 1);
        assert(rest.push((k - 1) as usize)[rest.len() as int] == j as usize);
    }
}

/// Every child listed lies among the first `k` nodes.
proof fn lemma_children_below(nodes: Seq<XmlNodeView>, node: int, k: int)
    requires
        0 <= k <= nodes.len(),
    ensures
        forall|i: int| 0 <= i < children_upto(nodes, node, k).len()
            ==> (#[trigger] children_upto(nodes, node, k)[i] as int) < k,
    decreases k,
{
    if k > 0 {
        lemma_children_below(nodes, node, k - 1);
        let rest = children_upto(nodes, node, k - 1);
        assert forall|i: int| 0 <= i < children_upto(nodes, node, k).len() implies
            (#[trigger] children_upto(nodes, node, k)[i] as int) < k by {
            if i < rest.len() {
                assert(children_upto(nodes, node, k)[i] == rest[i]);
            }
        }
    }
}

impl Document {
    #[verifier::type_invariant]
    spec fn well_formed(self) -> bool {
        &&& is_tree(nodes_view(self.nodes@))
        &&& self.children.len() == self.nodes.len()
        &&& forall|i: int|
            0 <= i < self.nodes.len() ==> (#[trigger] self.children@[i])@ == children_of(
                nodes_view(self.nodes@),
                i,
            )
    }

    /// The document `nodes` make, with each node's children listed.
    fn index(nodes: Vec<XmlNode>) -> (d: Document)
        requires
            is_tree(nodes_view(nodes@)),
        ensures
            d@ == nodes_view(nodes@),
    {
        let ghost view = nodes_view(nodes@);
        let n = nodes.len();
        let mut children: Vec<Vec<usize>> = Vec::new();
        let mut i: usize = 0;
        while i < n
            invariant
                i <= n == nodes.len(),
                children.len() == i,
                forall|k: int| 0 <= k < i ==> (#[trigger] children@[k])@ == Seq::<usize>::empty(),
            decreases n - i,
        {
            children.push(Vec::new());
            i = i + 1;
        }
        let mut j: usize = 0;
        while j < n
            invariant
                j <= n == nodes.len() == children.len(),
                view == nodes_view(nodes@),
                is_tree(view),
                forall|k: int| 0 <= k < n ==> (#[trigger] children@[k])@ == children_upto(view, k, j as int),
            decreases n - j,
        {
            assert(view[j as int] == nodes@[j as int]@);
            if let Some(p) = nodes[j].parent {
                assert(j > 0);
                children[p].push(j);
            }
            j = j + 1;
        }
        Document { nodes, children }
    }

    /// Read `xml` as a document: made parseable by [`sanitize`], then parsed.
    /// `Err` exactly when the text is not well-formed XML.
    pub fn read(xml: &str) -> (r: Result<Document, roxmltree::Error>)
        ensures
            r is Ok <==> parsed_xml(sanitized(xml@)) is Some,
            r matches Ok(d) ==> d@ == parsed_xml(sanitized(xml@))->0,
    {
        let cleaned = sanitize(xml);
        let nodes = parse_xml(cleaned.as_str())?;
        Ok(Document::index(nodes))
    }

    /// How many nodes the document has.
    pub fn len(&self) -> (r: usize)
        ensures
            r == self@.len(),
    {
        self.nodes.len()
    }

    /// The positions of the nodes directly inside `node`, in document order.
    pub fn children(&self, node: usize) -> (r: &Vec<usize>)
        requires
            node < self@.len(),
        ensures
            r@ == children_of(self@, node as int),
            forall|i: int| 0 <= i < r@.len() ==> (#[trigger] r@[i] as int) < self@.len(),
    {
        proof {
            use_type_invariant(self);
            lemma_children_below(self@, node as int, self@.len() as int);
        }
        &self.children[node]
    }

    /// Whether `node` is an element named `tag`.
    pub fn has_tag_name(&self, node: usize, tag: &str) -> (r: bool)
        requires
            node < self@.len(),
        ensures
            r == named(self@[node as int], tag@),
    {
        let n = &self.nodes[node];
        n.element && same_text(n.tag.as_str(), tag)
    }

    /// The first element named `tag` directly inside `node`.
    pub fn child(&self, node: usize, tag: &str) -> (r: Option<usize>)
        requires
            node < self@.len(),
        ensures
            r == first_named(self@, children_of(self@, node as int), tag@, 0),
            r matches Some(c) ==> c < self@.len(),
    {
        let list = self.children(node);
        let mut k: usize = 0;
        while k < list.len()
            invariant
                k <= list.len(),
                list@ == children_of(self@, node as int),
                forall|i: int| 0 <= i < list@.len() ==> (#[trigger] list@[i] as int) < self@.len(),
                first_named(self@, list@, tag@, 0) == first_named(self@, list@, tag@, k as int),
            decreases list.len() - k,
        {
            if self.has_tag_name(list[k], tag) {
                return Some(list[k]);
            }
            k = k + 1;
        }
        None
    }

    /// Every element named `tag` directly inside `node`, in document order.
    pub fn children_named(&self, node: usize, tag: &str) -> (r: Vec<usize>)
        requires
            node < self@.len(),
        ensures
            r@ == all_named(self@, children_of(self@, node as int), tag@, children_of(self@, node as int).len() as int),
            forall|i: int| 0 <= i < r@.len() ==> (#[trigger] r@[i] as int) < self@.len(),
    {
        let list = self.children(node);
        let mut out: Vec<usize> = Vec::new();
        let mut k: usize = 0;
        while k < list.len()
            invariant
                k <= list.len(),
                list@ == children_of(self@, node as int),
                forall|i: int| 0 <= i < list@.len() ==> (#[trigger] list@[i] as int) < self@.len(),
                out@ == all_named(self@, list@, tag@, k as int),
                forall|i: int| 0 <= i < out@.len() ==> (#[trigger] out@[i] as int) < self@.len(),
            decreases list.len() - k,
        {
            if self.has_tag_name(list[k], tag) {
                out.push(list[k]);
            }
            k = k + 1;
        }
        out
    }

    /// The value of `node`'s attribute `name`, if it has one in no
    /// namespace.
    pub fn attribute(&self, node: usize, name: &str) -> (r: Option<&str>)
        requires
            node < self@.len(),
        ensures
            text_view(r) == attribute_from(self@[node as int].attributes, name@, 0),
    {
        let attrs = &self.nodes[node].attributes;
        let ghost view = self@[node as int].attributes;
        assert(view == attrs@.map_values(|a: XmlAttribute| a@));
        let mut k: usize = 0;
        while k < attrs.len()
            invariant
                k <= attrs.len(),
                view == attrs@.map_values(|a: XmlAttribute| a@),
                view == self@[node as int].attributes,
                attribute_from(view, name@, 0) == attribute_from(view, name@, k as int),
            decreases attrs.len() - k,
        {
            let a = &attrs[k];
            assert(view[k as int] == a@);
            if a.namespace.is_none() && same_text(a.name.as_str(), name) {
                let v = a.value.as_str();
                return Some(v);
            }
            k = k + 1;
        }
        None
    }

    /// The document's root element: the first element directly inside the
    /// root.
    pub fn root_element(&self) -> (r: usize)
        ensures
            r < self@.len(),
            first_element(self@, children_of(self@, 0), 0) == Some(r),
    {
        proof {
            use_type_invariant(self);
        }
        let list = self.children(0);
        let mut k: usize = 0;
        while k < list.len()
            invariant
                k <= list.len(),
                list@ == children_of(self@, 0),
                is_tree(self@),
                forall|i: int| 0 <= i < list@.len() ==> (#[trigger] list@[i] as int) < self@.len(),
                forall|i: int| 0 <= i < k ==> !self@[#[trigger] list@[i] as int].element,
                first_element(self@, list@, 0) == first_element(self@, list@, k as int),
            decreases list.len() - k,
        {
            if self.nodes[list[k]].element {
                return list[k];
            }
            k = k + 1;
        }
        proof {
            let w = choose|i: int| 0 < i < self@.len() && self@[i].element && #[trigger] self@[i].parent == Some(0usize);
            lemma_child_listed(self@, 0, self@.len() as int, w);
            let at = list@.index_of(w as usize);
            assert(!self@[list@[at] as int].element);
        }
        0
    }
}

/// The first of `list[k..]` that is an element.
pub open spec fn first_element(nodes: Seq<XmlNodeView>, list: Seq<usize>, k: int) -> Option<usize>
    decreases list.len() - k,
{
    if k < 0 || k >= list.len() {
        None
    } else if nodes[list[k] as int].element {
        Some(list[k])
    } else {
        first_element(nodes, list, k + 1)
    }
}

/// Whether `node` has an element named `tag` directly inside it.
pub open spec fn has_child_named(nodes: Seq<XmlNodeView>, node: int, tag: Seq<char>) -> bool {
    exists|c: int| 0 <= c < nodes.len() && nodes[c].parent == Some(node as usize) && #[trigger] named(nodes[c], tag)
}

/// Every position listed among the children of `node` in the first `k`
/// nodes is a node before `k` whose parent is `node`.
pub proof fn lemma_children_are_inside(nodes: Seq<XmlNodeView>, node: int, k: int)
    requires
        0 <= k <= nodes.len() <= usize::MAX,
    ensures
        forall|i: int| 0 <= i < children_upto(nodes, node, k).len() ==> {
            let c = #[trigger] children_upto(nodes, node, k)[i] as int;
            0 <= c < k && nodes[c].parent == Some(node as usize)
        },
    decreases k,
{
    if k > 0 {
        lemma_children_are_inside(nodes, node, k - 1);
        let rest = children_upto(nodes, node, k - 1);
        assert forall|i: int| 0 <= i < children_upto(nodes, node, k).len() implies {
            let c = #[trigger] children_upto(nodes, node, k)[i] as int;
            0 <= c < k && nodes[c].parent == Some(node as usize)
        } by {
            if i < rest.len() {
                assert(children_upto(nodes, node, k)[i] == rest[i]);
            } else {
                assert(children_upto(nodes, node, k)[i] == (k - 1) as usize);
            }
        }
    }
}

/// The first element named `tag` in `list[k..]`: there is one exactly when
/// some element of `list[k..]` has that name, and it is one of them.
pub proof fn lemma_first_named(nodes: Seq<XmlNodeView>, list: Seq<usize>, tag: Seq<char>, k: int)
    requires
        0 <= k,
    ensures
        first_named(nodes, list, tag, k) is Some <==> exists|i: int| k <= i < list.len() && #[trigger] named(nodes[list[i] as int], tag),
        first_named(nodes, list, tag, k) matches Some(c) ==> list.contains(c) && named(nodes[c as int], tag),
    decreases list.len() - k,
{
    if k < list.len() {
        lemma_first_named(nodes, list, tag, k + 1);
        if !named(nodes[list[k] as int], tag) {
            assert forall|i: int| k <= i < list.len() && #[trigger] named(nodes[list[i] as int], tag) implies k + 1 <= i by {}
        } else {
            assert(list.contains(list[k]));
        }
    }
}

/// Each of `all_named(.., k)` is an element named `tag` from `list`.
pub proof fn lemma_all_named(nodes: Seq<XmlNodeView>, list: Seq<usize>, tag: Seq<char>, k: int)
    requires
        0 <= k <= list.len(),
    ensures
        forall|i: int| 0 <= i < all_named(nodes, list, tag, k).len() ==>
            list.contains(#[trigger] all_named(nodes, list, tag, k)[i]) && named(nodes[all_named(nodes, list, tag, k)[i] as int], tag),
    decreases k,
{
    if k > 0 {
        lemma_all_named(nodes, list, tag, k - 1);
        let rest = all_named(nodes, list, tag, k - 1);
        assert(list.contains(list[k - 1]));
        assert forall|i: int| 0 <= i < all_named(nodes, list, tag, k).len() implies
            list.contains(#[trigger] all_named(nodes, list, tag, k)[i]) && named(nodes[all_named(nodes, list, tag, k)[i] as int], tag) by {
            if i < rest.len() {
                assert(all_named(nodes, list, tag, k)[i] == rest[i]);
            }
        }
    }
}

/// A node has an element named `tag` inside it exactly when the first such
/// among its children exists, and that one lies inside it.
pub proof fn lemma_child_named(nodes: Seq<XmlNodeView>, node: int, tag: Seq<char>)
    requires
        0 <= node < nodes.len() <= usize::MAX,
    ensures
        has_child_named(nodes, node, tag) <==> first_named(nodes, children_of(nodes, node), tag, 0) is Some,
        first_named(nodes, children_of(nodes, node), tag, 0) matches Some(c)
            ==> (c as int) < nodes.len() && nodes[c as int].parent == Some(node as usize) && named(nodes[c as int], tag),
{
    let kids = children_of(nodes, node);
    lemma_children_are_inside(nodes, node, nodes.len() as int);
    lemma_first_named(nodes, kids, tag, 0);
    if has_child_named(nodes, node, tag) {
        let c = choose|c: int| 0 <= c < nodes.len() && nodes[c].parent == Some(node as usize) && #[trigger] named(nodes[c], tag);
        lemma_child_listed(nodes, node, nodes.len() as int, c);
        let i = choose|i: int| 0 <= i < kids.len() && kids[i] == c as usize;
        assert(named(nodes[kids[i] as int], tag));
    }
    if first_named(nodes, kids, tag, 0) is Some {
        let i = choose|i: int| 0 <= i < kids.len() && #[trigger] named(nodes[kids[i] as int], tag);
        let c = kids[i] as int;
        assert(0 <= c < nodes.len() && nodes[c].parent == Some(node as usize));
        assert(named(nodes[c], tag));
    }
    if let Some(c) = first_named(nodes, kids, tag, 0) {
        let i = choose|i: int| 0 <= i < kids.len() && kids[i] == c;
        assert(kids[i] == c);
    }
}

/// `s` without its leading byte-order marks: what is dropped is all marks,
/// what is kept is the rest of `s`, and it does not start with a mark.
proof fn lemma_without_bom(s: Seq<char>)
    ensures
        without_bom(s).len() <= s.len(),
        forall|i: int| 0 <= i < s.len() - without_bom(s).len() ==> s[i] == '\u{feff}',
        without_bom(s) == s.subrange(s.len() - without_bom(s).len(), s.len() as int),
        without_bom(s).len() == 0 || without_bom(s)[0] != '\u{feff}',
    decreases s.len(),
{
    if s.len() > 0 && s[0] == '\u{feff}' {
        let r = s.drop_first();
        lemma_without_bom(r);
        assert forall|i: int| 0 <= i < s.len() - without_bom(s).len() implies s[i] == '\u{feff}' by {
            if i > 0 {
                assert(s[i] == r[i - 1]);
            }
        }
        assert(r.subrange(r.len() - without_bom(r).len(), r.len() as int)
            =~= s.subrange(s.len() - without_bom(r).len(), s.len() as int));
    } else {
        assert(s.subrange(0, s.len() as int) =~= s);
    }
}

/// Making a document parseable drops its leading byte-order marks and
/// nothing else before it, leaves a text with no `<?xml` alone, and
/// otherwise cuts from the first `<?xml` to the end of the first `?>` after
/// it, leaving the text alone if no `?>` follows.
#[verifier::spinoff_prover]
pub proof fn sanitizing_cuts_only_the_first_declaration(s: Seq<char>)
    ensures
        ({
            let t = without_bom(s);
            let d = "<?xml"@;
            let c = "?>"@;
            &&& t.len() <= s.len()
            &&& forall|i: int| 0 <= i < s.len() - t.len() ==> s[i] == '\u{feff}'
            &&& t == s.subrange(s.len() - t.len(), s.len() as int)
            &&& t.len() == 0 || t[0] != '\u{feff}'
            &&& (forall|j: int| 0 <= j && j + 5 <= t.len() ==> #[trigger] t.subrange(j, j + 5) != d) ==> sanitized(s) == t
            &&& forall|start: int, end: int|
                0 <= start && start + 5 <= t.len() && #[trigger] t.subrange(start, start + 5) == d
                && (forall|j: int| 0 <= j < start ==> #[trigger] t.subrange(j, j + 5) != d)
                ==> {
                    &&& (forall|j: int| start <= j && j + 2 <= t.len() ==> #[trigger] t.subrange(j, j + 2) != c)
                        ==> sanitized(s) == t
                    &&& (start <= end && end + 2 <= t.len() && #[trigger] t.subrange(end, end + 2) == c
                        && forall|j: int| start <= j < end ==> #[trigger] t.subrange(j, j + 2) != c)
                        ==> sanitized(s) == t.subrange(0, start) + t.subrange(end + 2, t.len() as int)
                }
        }),
{
    reveal_strlit("<?xml");
    reveal_strlit("?>");
    let t = without_bom(s);
    lemma_without_bom(s);
    lemma_find_from(t, "<?xml"@, 0);
    if let Some(start) = find_from(t, "<?xml"@, 0) {
        lemma_find_from(t, "?>"@, start);
        assert forall|st: int|
            0 <= st && st + 5 <= t.len() && #[trigger] t.subrange(st, st + 5) == "<?xml"@
            && (forall|j: int| 0 <= j < st ==> #[trigger] t.subrange(j, j + 5) != "<?xml"@)
            implies st == start by {
            if st < start {
                assert(t.subrange(st, st + 5) != "<?xml"@);
            } else if st > start {
                assert(t.subrange(start, start + 5) != "<?xml"@);
            }
        }
        if let Some(fin) = find_from(t, "?>"@, start) {
            assert forall|end: int|
                start <= end && end + 2 <= t.len() && #[trigger] t.subrange(end, end + 2) == "?>"@
                && (forall|j: int| start <= j < end ==> #[trigger] t.subrange(j, j + 2) != "?>"@)
                implies end == fin by {
                if end < fin {
                    assert(t.subrange(end, end + 2) != "?>"@);
                } else if end > fin {
                    assert(t.subrange(fin, fin + 2) != "?>"@);
                }
            }
        }
    }
}

/// An attribute is read from the first attribute with its name in no
/// namespace, and reads as absent exactly when there is none.
pub proof fn an_attribute_is_the_first_with_its_name(attrs: Seq<XmlAttributeView>, name: Seq<char>, k: int)
    requires
        0 <= k,
    ensures
        attribute_from(attrs, name, k) matches Some(v) ==> exists|i: int| k <= i < attrs.len()
            && (#[trigger] attrs[i]).namespace is None && attrs[i].name == name && attrs[i].value == v
            && forall|j: int| k <= j < i ==> !((#[trigger] attrs[j]).namespace is None && attrs[j].name == name),
        attribute_from(attrs, name, k) is None <==> forall|i: int| k <= i < attrs.len()
            ==> !((#[trigger] attrs[i]).namespace is None && attrs[i].name == name),
    decreases attrs.len() - k,
{
    if k < attrs.len() {
        an_attribute_is_the_first_with_its_name(attrs, name, k + 1);
        if !(attrs[k].namespace is None && attrs[k].name == name) {
            if let Some(v) = attribute_from(attrs, name, k + 1) {
                let i = choose|i: int| k + 1 <= i < attrs.len()
                    && (#[trigger] attrs[i]).namespace is None && attrs[i].name == name && attrs[i].value == v
                    && forall|j: int| k + 1 <= j < i ==> !((#[trigger] attrs[j]).namespace is None && attrs[j].name == name);
                assert(attrs[i] == attrs[i]);
            }
        }
    }
}

} // verus!
