//! Reading an experiment's topology file: an XML document holding the services (the
//! applications), the bridges, the links between them and the schedule of dynamic events.
use vstd::prelude::*;
use crate::apps::{ApplicationKind, ContainerConfig, EventAction};
use crate::common::{Error, ErrorKind, uppercase, to_upper};
use crate::text::{dec_text, u32_text, is_digit};

verus! {

/// An attribute of an XML element: its local name, its value, and whether its name has a
/// namespace.
#[derive(Clone, Debug)]
pub struct XmlAttribute {
    pub name: String,
    pub value: String,
    pub namespaced: bool,
}

/// A node of an XML document, as met in document order: whether it is an element, its depth
/// (1 for the document itself), its local tag name (empty for a node that is not an element)
/// and its attributes.
#[derive(Clone, Debug)]
pub struct XmlItem {
    pub element: bool,
    pub depth: usize,
    pub tag: String,
    pub attributes: Vec<XmlAttribute>,
}

/// The plain value of an attribute.
pub open spec fn attr_view(a: XmlAttribute) -> (Seq<char>, Seq<char>, bool) {
    (a.name@, a.value@, a.namespaced)
}

/// The plain value of a node.
pub open spec fn item_view(i: XmlItem) -> (bool, nat, Seq<char>, Seq<(Seq<char>, Seq<char>, bool)>) {
    (i.element, i.depth as nat, i.tag@, i.attributes@.map_values(|a: XmlAttribute| attr_view(a)))
}

/// The plain values of the nodes.
pub open spec fn items_view(v: Seq<XmlItem>) -> Seq<(bool, nat, Seq<char>, Seq<(Seq<char>, Seq<char>, bool)>)> {
    v.map_values(|i: XmlItem| item_view(i))
}

/// The nodes of the XML document that `roxmltree` reads in a text, in document order, if it
/// reads one.
pub uninterp spec fn xml_items(text: Seq<char>) -> Option<Seq<(bool, nat, Seq<char>, Seq<(Seq<char>, Seq<char>, bool)>)>>;

/// Parses the text with `roxmltree::Document::parse` and lists the nodes of the document in
/// document order (`descendants`), each with whether it is an element (`is_element`), its
/// depth (`ancestors().count()`), its local tag name (`tag_name().name()`) and its attributes
/// (`name`, `value`, whether `namespace` is given). Nothing when the text is not a
/// well-formed document. What `roxmltree` makes of a text is named, not stated.
#[verifier::external_body]
fn parse_xml(text: &str) -> (r: Option<Vec<XmlItem>>)
    ensures
        match r {
            Some(v) => xml_items(text@) == Some(items_view(v@)),
            None => xml_items(text@) is None,
        },
{
    let doc = roxmltree::Document::parse(text).ok()?;
    Some(doc.descendants().map(|n| XmlItem {
        element: n.is_element(),
        depth: n.ancestors().count(),
        tag: n.tag_name().name().to_string(),
        attributes: n.attributes().map(|a| XmlAttribute {
            name: a.name().to_string(),
            value: a.value().to_string(),
            namespaced: a.namespace().is_some(),
        }).collect(),
    }).collect())
}

/// The value of the first attribute of `item` whose local name is `name`, whatever its
/// namespace, if any.
pub open spec fn attr_of(attrs: Seq<XmlAttribute>, name: Seq<char>) -> Option<Seq<char>>
    decreases attrs.len(),
{
    if attrs.len() == 0 {
        None
    } else if attrs[0].name@ == name {
        Some(attrs[0].value@)
    } else {
        attr_of(attrs.drop_first(), name)
    }
}

/// The value of the attribute of `item` named `name`, if it has one.
pub fn attribute(item: &XmlItem, name: &str) -> (r: Option<String>)
    ensures
        match r {
            Some(v) => attr_of(item.attributes@, name@) == Some(v@),
            None => attr_of(item.attributes@, name@) is None,
        },
{
    let key = name.to_owned();
    let mut i: usize = 0;
    proof {
        assert(item.attributes@.subrange(0, item.attributes@.len() as int) =~= item.attributes@);
    }
    while i < item.attributes.len()
        invariant
            i <= item.attributes@.len(),
            key@ == name@,
            attr_of(item.attributes@, name@) == attr_of(item.attributes@.subrange(i as int, item.attributes@.len() as int), name@),
        decreases item.attributes@.len() - i,
    {
        let a = &item.attributes[i];
        proof {
            let rest = item.attributes@.subrange(i as int, item.attributes@.len() as int);
            assert(rest[0] == item.attributes@[i as int]);
            assert(rest.drop_first() =~= item.attributes@.subrange(i + 1, item.attributes@.len() as int));
        }
        if a.name == key {
            return Some(a.value.clone());
        }
        i = i + 1;
    }
    None
}

/// `j` lies in the subtree of `r`: after it, with every node up to it deeper than `r`.
pub open spec fn in_subtree(items: Seq<XmlItem>, r: int, j: int) -> bool {
    &&& 0 <= r < j < items.len()
    &&& forall|t: int| r < t <= j ==> #[trigger] items[t].depth > items[r].depth
}

/// The children of node `r` among the nodes before `hi`, in document order.
pub open spec fn children_upto(items: Seq<XmlItem>, r: int, hi: int) -> Seq<usize>
    decreases hi - r,
{
    if hi <= r + 1 {
        Seq::empty()
    } else {
        let prev = children_upto(items, r, hi - 1);
        if in_subtree(items, r, hi - 1) && items[hi - 1].depth == items[r].depth + 1 {
            prev.push((hi - 1) as usize)
        } else {
            prev
        }
    }
}

/// The children of node `r`, in document order.
pub open spec fn children_of(items: Seq<XmlItem>, r: int) -> Seq<usize> {
    children_upto(items, r, items.len() as int)
}

proof fn lemma_children_after_end(items: Seq<XmlItem>, r: int, j: int, hi: int)
    requires
        0 <= r < j < items.len(),
        items[j].depth <= items[r].depth,
        j < hi <= items.len(),
    ensures
        children_upto(items, r, hi) == children_upto(items, r, j + 1),
    decreases hi - r,
{
    if hi > j + 1 {
        lemma_children_after_end(items, r, j, hi - 1);
        assert(!in_subtree(items, r, hi - 1));
    }
}

/// The children of node `r`, in document order.
pub fn children(items: &Vec<XmlItem>, r: usize) -> (c: Vec<usize>)
    requires
        r < items@.len(),
    ensures
        c@ == children_of(items@, r as int),
{
    let d = items[r].depth;
    let n = items.len();
    let mut c: Vec<usize> = Vec::new();
    let mut j: usize = r + 1;
    while j < items.len()
        invariant
            r < items@.len(),
            d == items@[r as int].depth,
            r + 1 <= j <= items@.len(),
            c@ == children_upto(items@, r as int, j as int),
            forall|t: int| r < t < j ==> #[trigger] items@[t].depth > d,
        decreases items@.len() - j,
    {
        let dj = items[j].depth;
        if dj <= d {
            proof {
                lemma_children_after_end(items@, r as int, j as int, items@.len() as int);
                assert(!in_subtree(items@, r as int, j as int));
            }
            return c;
        }
        if dj - 1 == d {
            c.push(j);
        }
        j = j + 1;
    }
    c
}


/// A service of the topology: its name, its address as written, if given, and how it runs.
#[derive(Clone, Debug)]
pub struct Service {
    pub name: String,
    pub ip: Option<String>,
    pub kind: ApplicationKind,
}

/// A vertex of the topology: an application or a bridge, each with its identifier.
#[derive(Clone, Debug)]
pub enum TopologyNode {
    App(u32, Service),
    Bridge(u32),
}

impl TopologyNode {
    /// The identifier of the node.
    pub fn id(&self) -> (i: u32)
        ensures
            i == node_view(*self).0,
    {
        match self {
            TopologyNode::App(id, _) => *id,
            TopologyNode::Bridge(id) => *id,
        }
    }

    /// Whether the node is an application.
    pub fn is_app(&self) -> (b: bool)
        ensures
            b == (node_view(*self).1 is Some),
    {
        match self {
            TopologyNode::App(_, _) => true,
            TopologyNode::Bridge(_) => false,
        }
    }
}

/// How a service runs, as plain values: nothing for bare metal, else the container's name,
/// identifier, image and command.
pub open spec fn kind_view(k: ApplicationKind) -> Option<(Seq<char>, Option<Seq<char>>, Option<Seq<char>>, Option<Seq<char>>)> {
    match k {
        ApplicationKind::BareMetal => None,
        ApplicationKind::Container(c) => Some((c.name_view(), c.id_view(), c.image_view(), c.command_view())),
    }
}

/// A service as plain values: its name, its address text and how it runs.
pub type ServiceView = (Seq<char>, Option<Seq<char>>, Option<(Seq<char>, Option<Seq<char>>, Option<Seq<char>>, Option<Seq<char>>)>);

/// A node as plain values: its identifier and, for an application, its service.
pub type NodeView = (u32, Option<ServiceView>);

/// The plain value of a node.
pub open spec fn node_view(n: TopologyNode) -> NodeView {
    match n {
        TopologyNode::App(id, s) => (id, Some((s.name@, opt_view(s.ip), kind_view(s.kind)))),
        TopologyNode::Bridge(id) => (id, None),
    }
}

/// The text of an optional string.
pub open spec fn opt_view(o: Option<String>) -> Option<Seq<char>> {
    match o {
        Some(s) => Some(s@),
        None => None,
    }
}

/// The map of names to nodes that a list of entries holds, the later entry of a name winning.
pub open spec fn node_map(v: Seq<(String, TopologyNode)>) -> Map<Seq<char>, NodeView>
    decreases v.len(),
{
    if v.len() == 0 {
        Map::empty()
    } else {
        node_map(v.drop_last()).insert(v.last().0@, node_view(v.last().1))
    }
}

/// No name is held twice.
pub open spec fn names_unique(v: Seq<(String, TopologyNode)>) -> bool {
    forall|a: int, b: int| 0 <= a < b < v.len() ==> (#[trigger] v[a]).0@ != (#[trigger] v[b]).0@
}

/// The name of a container of an emulation: `kollaps_<emulation>_<node>`.
pub open spec fn container_name(emul_id: Seq<char>, node: u32) -> Seq<char> {
    "kollaps_"@ + emul_id + "_"@ + dec_text(node as nat)
}

/// How the service of element `item`, numbered `id`, runs, if the element says it right:
/// a container needs an image and a command (attaching to an existing container, named
/// and addressed but without image and command, is not supported), bare metal needs
/// nothing more; the kind is read in upper case.
pub open spec fn service_kind_spec(attrs: Seq<XmlAttribute>, id: u32, emul_id: Seq<char>) -> Option<
    Option<(Seq<char>, Option<Seq<char>>, Option<Seq<char>>, Option<Seq<char>>)>,
> {
    match attr_of(attrs, "kind"@) {
        None => None,
        Some(kind) => if uppercase(kind) == "CONTAINER"@ {
            let image = attr_of(attrs, "image"@);
            let command = attr_of(attrs, "command"@);
            if image is Some && command is Some && image->0.len() > 0 && command->0.len() > 0 {
                Some(Some((container_name(emul_id, id), None, image, command)))
            } else {
                None
            }
        } else if uppercase(kind) == "BAREMETAL"@ {
            Some(None)
        } else {
            None
        },
    }
}

/// The service that element `item`, numbered `id`, declares, if it declares one right.
pub open spec fn service_spec(item: XmlItem, id: u32, emul_id: Seq<char>) -> Option<ServiceView> {
    if item.tag@ != "service"@ {
        None
    } else {
        match service_kind_spec(item.attributes@, id, emul_id) {
            None => None,
            Some(kind) => match attr_of(item.attributes@, "name"@) {
                None => None,
                Some(name) => Some((name, attr_of(item.attributes@, "ip"@), kind)),
            },
        }
    }
}

/// The names and nodes after reading the first `k` children `ch` of a block of services or
/// bridges, starting from `m` and numbering from `id`: each element declares a node under
/// its name (replacing a node of the same name), or the whole block is refused.
pub open spec fn block_fold(
    items: Seq<XmlItem>,
    ch: Seq<usize>,
    k: nat,
    m: Map<Seq<char>, NodeView>,
    id: int,
    emul_id: Seq<char>,
    bridges: bool,
) -> Option<(Map<Seq<char>, NodeView>, int)>
    decreases k,
{
    if k == 0 {
        Some((m, id))
    } else {
        match block_fold(items, ch, (k - 1) as nat, m, id, emul_id, bridges) {
            None => None,
            Some((m1, id1)) => {
                let it = items[ch[k - 1] as int];
                if !it.element {
                    Some((m1, id1))
                } else if bridges {
                    if it.tag@ != "bridge"@ {
                        None
                    } else {
                        match attr_of(it.attributes@, "name"@) {
                            None => None,
                            Some(name) => Some((m1.insert(name, (id1 as u32, None)), id1 + 1)),
                        }
                    }
                } else {
                    match service_spec(it, id1 as u32, emul_id) {
                        None => None,
                        Some(sv) => Some((m1.insert(sv.0, (id1 as u32, Some(sv))), id1 + 1)),
                    }
                }
            },
        }
    }
}

proof fn lemma_node_map_push(v: Seq<(String, TopologyNode)>, e: (String, TopologyNode))
    requires
        forall|j: int| 0 <= j < v.len() ==> (#[trigger] v[j]).0@ != e.0@,
        names_unique(v),
    ensures
        node_map(v.push(e)) == node_map(v).insert(e.0@, node_view(e.1)),
        names_unique(v.push(e)),
{
    assert(v.push(e).drop_last() =~= v);
    assert forall|a: int, b: int| 0 <= a < b < v.push(e).len() implies (#[trigger] v.push(e)[a]).0@ != (
    #[trigger] v.push(e)[b]).0@ by {
        if b < v.len() {
            assert(v[a].0@ != v[b].0@);
        }
    }
}

proof fn lemma_node_map_set(v: Seq<(String, TopologyNode)>, i: int, e: (String, TopologyNode))
    requires
        0 <= i < v.len(),
        v[i].0@ == e.0@,
        names_unique(v),
    ensures
        node_map(v.update(i, e)) == node_map(v).insert(e.0@, node_view(e.1)),
        names_unique(v.update(i, e)),
    decreases v.len(),
{
    let w = v.update(i, e);
    assert forall|a: int, b: int| 0 <= a < b < w.len() implies (#[trigger] w[a]).0@ != (#[trigger] w[b]).0@ by {
        assert(v[a].0@ != v[b].0@);
    }
    if i == v.len() - 1 {
        assert(w.drop_last() =~= v.drop_last());
        assert(node_map(w) =~= node_map(v).insert(e.0@, node_view(e.1)));
    } else {
        assert(w.drop_last() =~= v.drop_last().update(i, e));
        assert(names_unique(v.drop_last())) by {
            assert forall|a: int, b: int| 0 <= a < b < v.drop_last().len() implies (#[trigger] v.drop_last()[a]).0@ != (
            #[trigger] v.drop_last()[b]).0@ by {
                assert(v[a].0@ != v[b].0@);
            }
        }
        lemma_node_map_set(v.drop_last(), i, e);
        assert(v[i].0@ != v[v.len() - 1].0@);
        assert(node_map(w) =~= node_map(v).insert(e.0@, node_view(e.1)));
    }
}

/// Adds a node under its name, replacing a node of the same name.
fn insert_node(nodes: &mut Vec<(String, TopologyNode)>, name: String, node: TopologyNode)
    requires
        names_unique(old(nodes)@),
    ensures
        names_unique(final(nodes)@),
        node_map(final(nodes)@) == node_map(old(nodes)@).insert(name@, node_view(node)),
        final(nodes)@.len() <= old(nodes)@.len() + 1,
{
    let mut i: usize = 0;
    while i < nodes.len()
        invariant
            i <= nodes@.len(),
            *nodes == *old(nodes),
            names_unique(old(nodes)@),
            forall|j: int| 0 <= j < i ==> (#[trigger] nodes@[j]).0@ != name@,
        decreases nodes@.len() - i,
    {
        if nodes[i].0 == name {
            let ghost before = nodes@;
            proof {
                lemma_node_map_set(before, i as int, (name, node));
            }
            nodes.set(i, (name, node));
            return;
        }
        i = i + 1;
    }
    proof {
        lemma_node_map_push(nodes@, (name, node));
    }
    nodes.push((name, node));
}

/// The value of a required attribute, or the refusal of the topology.
fn required(item: &XmlItem, name: &str, message: &str) -> (r: Result<String, Error>)
    ensures
        match r {
            Ok(v) => attr_of(item.attributes@, name@) == Some(v@),
            Err(e) => attr_of(item.attributes@, name@) is None && e.kind == ErrorKind::InvalidData,
        },
{
    match attribute(item, name) {
        Some(v) => Ok(v),
        None => Err(produce_err(message)),
    }
}

/// A refusal of the topology.
fn produce_err(text: &str) -> (e: Error)
    ensures
        e.kind == ErrorKind::InvalidData,
        e.message@ == text@,
{
    Error::new("parse topology", ErrorKind::InvalidData, text)
}

/// Whether the element's tag is `tag`.
fn tag_is(item: &XmlItem, tag: &str) -> (b: bool)
    ensures
        b == (item.tag@ == tag@),
{
    let t = tag.to_owned();
    item.tag == t
}

/// How the service of an element runs.
fn parse_kind(item: &XmlItem, id: u32, emul_id: &str) -> (r: Result<ApplicationKind, Error>)
    ensures
        match r {
            Ok(k) => service_kind_spec(item.attributes@, id, emul_id@) == Some(kind_view(k)),
            Err(e) => service_kind_spec(item.attributes@, id, emul_id@) is None,
        },
{
    let kind = required(item, "kind", "No \"kind\" attribute detected on the service!")?;
    let upper = to_upper(kind.as_str());
    let container = String::from_str("CONTAINER");
    let baremetal = String::from_str("BAREMETAL");
    proof {
        reveal_strlit("CONTAINER");
        reveal_strlit("BAREMETAL");
    }
    if upper == container {
        let image = attribute(item, "image");
        let command = attribute(item, "command");
        let name = attribute(item, "name");
        let ip = attribute(item, "ip");
        match (image, command) {
            (Some(im), Some(com)) => {
                if im.as_str().unicode_len() == 0 || com.as_str().unicode_len() == 0 {
                    return Err(produce_err("A Container Service must have a non empty image and command."));
                }
                let mut cname = String::from_str("kollaps_");
                cname.append(emul_id);
                cname.append("_");
                let digits = u32_text(id);
                cname.append(digits.as_str());
                proof {
                    assert(cname@ =~= container_name(emul_id@, id));
                }
                let config = ContainerConfig::new(cname, None, Some((im, Some(com))));
                Ok(ApplicationKind::Container(config))
            },
            _ => {
                if name.is_some() && ip.is_some() {
                    Err(produce_err("Attaching to an existing container is not supported for now"))
                } else {
                    Err(
                        produce_err(
                            "A Container Service must have no image+command attribute if attaching to existing one, or have image+command if we must deploy one.",
                        ),
                    )
                }
            },
        }
    } else if upper == baremetal {
        Ok(ApplicationKind::BareMetal)
    } else {
        Err(produce_err("Kind can be either baremetal | container"))
    }
}

proof fn lemma_children_bounds(items: Seq<XmlItem>, r: int, hi: int)
    requires
        0 <= r,
        hi <= items.len(),
    ensures
        forall|q: int| 0 <= q < children_upto(items, r, hi).len() ==> #[trigger] children_upto(items, r, hi)[q] < hi,
        children_upto(items, r, hi).len() <= if hi > r { hi - r } else { 0 },
    decreases hi - r,
{
    if hi > r + 1 {
        lemma_children_bounds(items, r, hi - 1);
    }
}

proof fn lemma_block_fold_none(
    items: Seq<XmlItem>,
    ch: Seq<usize>,
    k1: nat,
    k2: nat,
    m: Map<Seq<char>, NodeView>,
    id: int,
    emul_id: Seq<char>,
    bridges: bool,
)
    requires
        k1 <= k2,
        block_fold(items, ch, k1, m, id, emul_id, bridges) is None,
    ensures
        block_fold(items, ch, k2, m, id, emul_id, bridges) is None,
    decreases k2,
{
    if k2 > k1 {
        lemma_block_fold_none(items, ch, k1, (k2 - 1) as nat, m, id, emul_id, bridges);
    }
}

/// Reads a block of services (or of bridges) into the names and nodes, numbering the nodes
/// from the number of nodes already there.
pub fn parse_block(
    items: &Vec<XmlItem>,
    block: usize,
    emul_id: &str,
    nodes: &mut Vec<(String, TopologyNode)>,
    bridges: bool,
) -> (r: Result<(), Error>)
    requires
        block < items@.len(),
        names_unique(old(nodes)@),
        old(nodes)@.len() + items@.len() < u32::MAX,
    ensures
        names_unique(final(nodes)@),
        final(nodes)@.len() + items@.len() <= old(nodes)@.len() + items@.len() + children_of(items@, block as int).len(),
        match block_fold(
            items@,
            children_of(items@, block as int),
            children_of(items@, block as int).len(),
            node_map(old(nodes)@),
            old(nodes)@.len() as int,
            emul_id@,
            bridges,
        ) {
            Some((m, _)) => r is Ok && node_map(final(nodes)@) == m,
            None => r is Err,
        },
{
    let ch = children(items, block);
    proof {
        lemma_children_bounds(items@, block as int, items@.len() as int);
    }
    let mut current_node: u32 = nodes.len() as u32;
    let ghost start_map = node_map(nodes@);
    let ghost start_len = nodes@.len();
    let ghost start_id = nodes@.len() as int;
    let mut k: usize = 0;
    while k < ch.len()
        invariant
            ch@ == children_of(items@, block as int),
            k <= ch@.len(),
            names_unique(nodes@),
            start_len + items@.len() < u32::MAX,
            forall|q: int| 0 <= q < ch@.len() ==> #[trigger] ch@[q] < items@.len(),
            ch@.len() <= items@.len(),
            current_node <= start_len + k,
            nodes@.len() <= start_len + k,
            start_len == old(nodes)@.len(),
            start_map == node_map(old(nodes)@),
            start_id == start_len,
            block_fold(items@, ch@, k as nat, start_map, start_id, emul_id@, bridges) == Some((node_map(nodes@), current_node as int)),
        decreases ch@.len() - k,
    {
        let item = &items[ch[k]];
        proof {
            assert(ch@.subrange(0, k as int) == ch@.subrange(0, k as int));
        }
        if !item.element {
            k = k + 1;
            continue;
        }
        let ghost n_all = ch@.len();
        if bridges {
            if !tag_is(item, "bridge") {
                proof {
                    lemma_block_fold_none(items@, ch@, (k + 1) as nat, n_all, start_map, start_id, emul_id@, bridges);
                }
                return Err(produce_err("Invalid tag inside <bridges>"));
            }
            let name = match required(item, "name", "A bridge needs to have a name") {
                Ok(n) => n,
                Err(e) => {
                    proof {
                        lemma_block_fold_none(items@, ch@, (k + 1) as nat, n_all, start_map, start_id, emul_id@, bridges);
                    }
                    return Err(e);
                },
            };
            insert_node(nodes, name, TopologyNode::Bridge(current_node));
        } else {
            if !tag_is(item, "service") {
                proof {
                    reveal_strlit("service");
                    lemma_block_fold_none(items@, ch@, (k + 1) as nat, n_all, start_map, start_id, emul_id@, bridges);
                }
                return Err(produce_err("Invalid tag inside <services>"));
            }
            let kind = match parse_kind(item, current_node, emul_id) {
                Ok(kd) => kd,
                Err(e) => {
                    proof {
                        lemma_block_fold_none(items@, ch@, (k + 1) as nat, n_all, start_map, start_id, emul_id@, bridges);
                    }
                    return Err(e);
                },
            };
            let name = match required(item, "name", "A service must have a name") {
                Ok(n) => n,
                Err(e) => {
                    proof {
                        lemma_block_fold_none(items@, ch@, (k + 1) as nat, n_all, start_map, start_id, emul_id@, bridges);
                    }
                    return Err(e);
                },
            };
            let ip = attribute(item, "ip");
            let service = Service { name: name.clone(), ip, kind };
            insert_node(nodes, name, TopologyNode::App(current_node, service));
        }
        current_node = current_node + 1;
        k = k + 1;
    }
    Ok(())
}


/// `c` names a unit of bandwidth: kilo, mega or giga.
pub open spec fn unit_char(c: char) -> bool {
    c == 'K' || c == 'M' || c == 'G'
}

/// The text holds, from `s` to `e`, digits followed by a unit and `bps`.
pub open spec fn bandwidth_match_at(t: Seq<char>, s: int, e: int) -> bool {
    &&& 0 <= s < e
    &&& e + 4 <= t.len()
    &&& forall|i: int| s <= i < e ==> #[trigger] is_digit(t[i])
    &&& unit_char(t[e])
    &&& t[e + 1] == 'b'
    &&& t[e + 2] == 'p'
    &&& t[e + 3] == 's'
}

/// The digits and the unit of the leftmost match of `([0-9]+)([KMG])bps` in the text.
pub open spec fn bandwidth_match(t: Seq<char>) -> Option<(Seq<char>, Seq<char>)> {
    if exists|s: int, e: int| bandwidth_match_at(t, s, e) {
        let (s, e) = choose|s: int, e: int|
            bandwidth_match_at(t, s, e) && forall|s2: int, e2: int| bandwidth_match_at(t, s2, e2) ==> s <= s2;
        Some((t.subrange(s, e), seq![t[e]]))
    } else {
        None
    }
}

/// The digits and the unit of a bandwidth written like `100Mbps`: the two groups of the
/// leftmost match of the regular expression `([0-9]+)([KMG])bps` (`regex::Regex::captures`).
/// The contract states the leftmost match: the first position at which digits, then `K`,
/// `M` or `G`, then `bps` begin, with all the digits that follow that position.
#[verifier::external_body]
fn bandwidth_parts(text: &str) -> (r: Option<(String, String)>)
    ensures
        match r {
            Some((d, u)) => bandwidth_match(text@) == Some((d@, u@)),
            None => bandwidth_match(text@) is None,
        },
{
    let re = regex::Regex::new(r"([0-9]+)([KMG])bps").ok()?;
    let caps = re.captures(text)?;
    Some((caps.get(1)?.as_str().to_string(), caps.get(2)?.as_str().to_string()))
}

/// A link of the topology: the identifiers of its ends, its bandwidth as digits and unit
/// (`K`, `M` or `G`, per second), and its latency, jitter and drop as written, if given.
#[derive(Clone, Debug)]
pub struct LinkDecl {
    pub origin: u32,
    pub destination: u32,
    pub bandwidth: String,
    pub unit: String,
    pub latency: Option<String>,
    pub jitter: Option<String>,
    pub drop: Option<String>,
}

/// A link as plain values.
pub type LinkView = (u32, u32, Seq<char>, Seq<char>, Option<Seq<char>>, Option<Seq<char>>, Option<Seq<char>>);

/// The plain value of a link.
pub open spec fn link_view(l: LinkDecl) -> LinkView {
    (l.origin, l.destination, l.bandwidth@, l.unit@, opt_view(l.latency), opt_view(l.jitter), opt_view(l.drop))
}

/// The link that element `item` declares between the named nodes of `m`, if it declares
/// one right.
#[verifier::opaque]
pub open spec fn link_spec(item: XmlItem, m: Map<Seq<char>, NodeView>) -> Option<LinkView> {
    let a = item.attributes@;
    if item.tag@ != "link"@ {
        None
    } else {
        match (attr_of(a, "origin"@), attr_of(a, "dest"@), attr_of(a, "bandwidth"@)) {
            (Some(o), Some(d), Some(b)) => if m.contains_key(o) && m.contains_key(d) {
                match bandwidth_match(b) {
                    Some((digits, unit)) => Some(
                        (
                            m[o].0,
                            m[d].0,
                            digits,
                            unit,
                            attr_of(a, "latency"@),
                            attr_of(a, "jitter"@),
                            attr_of(a, "drop"@),
                        ),
                    ),
                    None => None,
                }
            } else {
                None
            },
            _ => None,
        }
    }
}

/// The links declared by the first `k` children `ch` of the block of links, or nothing if
/// one of them is wrong.
pub open spec fn links_fold(items: Seq<XmlItem>, ch: Seq<usize>, k: nat, m: Map<Seq<char>, NodeView>) -> Option<
    Seq<LinkView>,
>
    decreases k,
{
    if k == 0 {
        Some(Seq::empty())
    } else {
        match links_fold(items, ch, (k - 1) as nat, m) {
            None => None,
            Some(ls) => {
                let it = items[ch[k - 1] as int];
                if !it.element {
                    Some(ls)
                } else {
                    match link_spec(it, m) {
                        None => None,
                        Some(l) => Some(ls.push(l)),
                    }
                }
            },
        }
    }
}

/// The node of a name, if there is one.
fn lookup(nodes: &Vec<(String, TopologyNode)>, name: &String) -> (r: Option<u32>)
    requires
        names_unique(nodes@),
    ensures
        match r {
            Some(id) => node_map(nodes@).contains_key(name@) && node_map(nodes@)[name@].0 == id,
            None => !node_map(nodes@).contains_key(name@),
        },
{
    let mut i: usize = 0;
    while i < nodes.len()
        invariant
            i <= nodes@.len(),
            names_unique(nodes@),
            forall|j: int| 0 <= j < i ==> (#[trigger] nodes@[j]).0@ != name@,
        decreases nodes@.len() - i,
    {
        if nodes[i].0 == *name {
            let id = nodes[i].1.id();
            proof {
                lemma_node_map_at(nodes@, i as int);
            }
            return Some(id);
        }
        i = i + 1;
    }
    proof {
        lemma_node_map_absent(nodes@, name@);
    }
    None
}

proof fn lemma_node_map_at(v: Seq<(String, TopologyNode)>, i: int)
    requires
        0 <= i < v.len(),
        names_unique(v),
    ensures
        node_map(v).contains_key(v[i].0@),
        node_map(v)[v[i].0@] == node_view(v[i].1),
    decreases v.len(),
{
    if i < v.len() - 1 {
        assert(names_unique(v.drop_last())) by {
            assert forall|a: int, b: int| 0 <= a < b < v.drop_last().len() implies (#[trigger] v.drop_last()[a]).0@ != (
            #[trigger] v.drop_last()[b]).0@ by {
                assert(v[a].0@ != v[b].0@);
            }
        }
        lemma_node_map_at(v.drop_last(), i);
        assert(v[i].0@ != v[v.len() - 1].0@);
        assert(v.drop_last()[i] == v[i]);
    }
}

proof fn lemma_node_map_absent(v: Seq<(String, TopologyNode)>, name: Seq<char>)
    requires
        forall|j: int| 0 <= j < v.len() ==> (#[trigger] v[j]).0@ != name,
    ensures
        !node_map(v).contains_key(name),
    decreases v.len(),
{
    if v.len() > 0 {
        lemma_node_map_absent(v.drop_last(), name);
        assert(v[v.len() - 1].0@ != name);
    }
}

proof fn lemma_links_fold_none(items: Seq<XmlItem>, ch: Seq<usize>, k1: nat, k2: nat, m: Map<Seq<char>, NodeView>)
    requires
        k1 <= k2,
        links_fold(items, ch, k1, m) is None,
    ensures
        links_fold(items, ch, k2, m) is None,
    decreases k2,
{
    if k2 > k1 {
        lemma_links_fold_none(items, ch, k1, (k2 - 1) as nat, m);
    }
}

/// Reads the block of links between the named nodes.
#[verifier::rlimit(30)]
pub fn parse_links(items: &Vec<XmlItem>, block: usize, nodes: &Vec<(String, TopologyNode)>) -> (r: Result<Vec<LinkDecl>, Error>)
    requires
        block < items@.len(),
        names_unique(nodes@),
    ensures
        match links_fold(items@, children_of(items@, block as int), children_of(items@, block as int).len(), node_map(nodes@)) {
            Some(ls) => r matches Ok(v) && v@.map_values(|l: LinkDecl| link_view(l)) == ls,
            None => r is Err,
        },
{
    let ch = children(items, block);
    proof {
        lemma_children_bounds(items@, block as int, items@.len() as int);
    }
    let ghost m = node_map(nodes@);
    let mut links: Vec<LinkDecl> = Vec::new();
    let mut k: usize = 0;
    while k < ch.len()
        invariant
            ch@ == children_of(items@, block as int),
            k <= ch@.len(),
            names_unique(nodes@),
            m == node_map(nodes@),
            forall|q: int| 0 <= q < ch@.len() ==> #[trigger] ch@[q] < items@.len(),
            links_fold(items@, ch@, k as nat, m) == Some(links@.map_values(|l: LinkDecl| link_view(l))),
        decreases ch@.len() - k,
    {
        let item = &items[ch[k]];
        if !item.element {
            k = k + 1;
            continue;
        }
        let ghost n_all = ch@.len();
        let decl = match link_of(item, nodes) {
            Some(d) => d,
            None => {
                proof {
                    lemma_links_fold_none(items@, ch@, (k + 1) as nat, n_all, m);
                }
                return Err(produce_err("Incomplete network description"));
            },
        };
        let ghost before = links@;
        links.push(decl);
        proof {
            assert(links@.map_values(|l: LinkDecl| link_view(l)) =~= before.map_values(|l: LinkDecl| link_view(l)).push(
                link_view(decl),
            ));
        }
        k = k + 1;
    }
    Ok(links)
}

/// The link one element declares, if it declares one right.
fn link_of(item: &XmlItem, nodes: &Vec<(String, TopologyNode)>) -> (r: Option<LinkDecl>)
    requires
        names_unique(nodes@),
    ensures
        match link_spec(*item, node_map(nodes@)) {
            Some(l) => r matches Some(d) && link_view(d) == l,
            None => r is None,
        },
{
    proof {
        reveal_strlit("link");
        reveal(link_spec);
    }
    if !tag_is(item, "link") {
        return None;
    }
    let origin = attribute(item, "origin");
    let dest = attribute(item, "dest");
    let bandwidth = attribute(item, "bandwidth");
    match (origin, dest, bandwidth) {
        (Some(o), Some(d), Some(b)) => {
            let source = lookup(nodes, &o)?;
            let destination = lookup(nodes, &d)?;
            let (digits, unit) = bandwidth_parts(b.as_str())?;
            let jitter = attribute(item, "jitter");
            let latency = attribute(item, "latency");
            let drop = attribute(item, "drop");
            Some(LinkDecl { origin: source, destination, bandwidth: digits, unit, latency, jitter, drop })
        },
        _ => None,
    }
}


/// A dynamic event of the topology: the identifier of the node, the time as written, if
/// given, and the action.
#[derive(Clone, Debug)]
pub struct EventDecl {
    pub app_id: u32,
    pub time: Option<String>,
    pub action: EventAction,
}

/// An event as plain values.
pub type EventView = (u32, Option<Seq<char>>, EventAction);

/// The plain value of an event.
pub open spec fn event_view(e: EventDecl) -> EventView {
    (e.app_id, opt_view(e.time), e.action)
}

/// The action an upper-case text names: `JOIN`, `LEAVE` or `CRASH`.
pub open spec fn action_of(t: Seq<char>) -> Option<EventAction> {
    if t == "JOIN"@ {
        Some(EventAction::Join)
    } else if t == "LEAVE"@ {
        Some(EventAction::Quit)
    } else if t == "CRASH"@ {
        Some(EventAction::Crash)
    } else {
        None
    }
}

/// The actions of the schedule are named apart: a text reads as `Join` exactly when it is
/// `JOIN`, as `Quit` exactly when it is `LEAVE`, as `Crash` exactly when it is `CRASH`, and as
/// nothing otherwise; an event scheduled by an element carries the action that its `action`
/// attribute names, read in upper case.
pub proof fn lemma_action_names(t: Seq<char>, item: XmlItem, m: Map<Seq<char>, NodeView>)
    ensures
        action_of(t) == Some(EventAction::Join) <==> t == "JOIN"@,
        action_of(t) == Some(EventAction::Quit) <==> t == "LEAVE"@,
        action_of(t) == Some(EventAction::Crash) <==> t == "CRASH"@,
        action_of(t) is None <==> (t != "JOIN"@ && t != "LEAVE"@ && t != "CRASH"@),
        event_spec(item, m) matches Some(e) ==> {
            let act = uppercase(attr_of(item.attributes@, "action"@)->0);
            &&& attr_of(item.attributes@, "action"@) is Some
            &&& (e.2 == EventAction::Join <==> act == "JOIN"@)
            &&& (e.2 == EventAction::Quit <==> act == "LEAVE"@)
            &&& (e.2 == EventAction::Crash <==> act == "CRASH"@)
        },
{
    reveal_strlit("JOIN");
    reveal_strlit("LEAVE");
    reveal_strlit("CRASH");
    reveal(event_spec);
    assert("JOIN"@ != "LEAVE"@) by {
        assert("JOIN"@[0] != "LEAVE"@[0]);
    }
    assert("JOIN"@ != "CRASH"@) by {
        assert("JOIN"@[0] != "CRASH"@[0]);
    }
    assert("LEAVE"@ != "CRASH"@) by {
        assert("LEAVE"@[0] != "CRASH"@[0]);
    }
}

/// The event that element `item` schedules for a named node of `m`, if it schedules one
/// right.
#[verifier::opaque]
pub open spec fn event_spec(item: XmlItem, m: Map<Seq<char>, NodeView>) -> Option<EventView> {
    let a = item.attributes@;
    if item.tag@ != "schedule"@ {
        None
    } else {
        match (attr_of(a, "name"@), attr_of(a, "action"@)) {
            (Some(name), Some(action)) => match action_of(uppercase(action)) {
                Some(act) => if m.contains_key(name) {
                    Some((m[name].0, attr_of(a, "time"@), act))
                } else {
                    None
                },
                None => None,
            },
            _ => None,
        }
    }
}

/// The events scheduled by the first `k` children `ch` of the dynamic block, or nothing if
/// one of them is wrong.
pub open spec fn events_fold(items: Seq<XmlItem>, ch: Seq<usize>, k: nat, m: Map<Seq<char>, NodeView>) -> Option<
    Seq<EventView>,
>
    decreases k,
{
    if k == 0 {
        Some(Seq::empty())
    } else {
        match events_fold(items, ch, (k - 1) as nat, m) {
            None => None,
            Some(es) => {
                let it = items[ch[k - 1] as int];
                if !it.element {
                    Some(es)
                } else {
                    match event_spec(it, m) {
                        None => None,
                        Some(e) => Some(es.push(e)),
                    }
                }
            },
        }
    }
}

proof fn lemma_events_fold_none(items: Seq<XmlItem>, ch: Seq<usize>, k1: nat, k2: nat, m: Map<Seq<char>, NodeView>)
    requires
        k1 <= k2,
        events_fold(items, ch, k1, m) is None,
    ensures
        events_fold(items, ch, k2, m) is None,
    decreases k2,
{
    if k2 > k1 {
        lemma_events_fold_none(items, ch, k1, (k2 - 1) as nat, m);
    }
}

/// The event one element schedules, if it schedules one right.
fn event_of(item: &XmlItem, nodes: &Vec<(String, TopologyNode)>) -> (r: Option<EventDecl>)
    requires
        names_unique(nodes@),
    ensures
        match event_spec(*item, node_map(nodes@)) {
            Some(e) => r matches Some(d) && event_view(d) == e,
            None => r is None,
        },
{
    proof {
        reveal_strlit("schedule");
        reveal_strlit("JOIN");
        reveal_strlit("LEAVE");
        reveal_strlit("CRASH");
        reveal(event_spec);
    }
    if !tag_is(item, "schedule") {
        return None;
    }
    let time = attribute(item, "time");
    let name = attribute(item, "name")?;
    let action = attribute(item, "action")?;
    let upper = to_upper(action.as_str());
    let act = if upper == String::from_str("JOIN") {
        EventAction::Join
    } else if upper == String::from_str("LEAVE") {
        EventAction::Quit
    } else if upper == String::from_str("CRASH") {
        EventAction::Crash
    } else {
        return None;
    };
    let app_id = lookup(nodes, &name)?;
    Some(EventDecl { app_id, time, action: act })
}

/// Reads the dynamic block: the events scheduled for the named nodes.
#[verifier::rlimit(30)]
pub fn parse_schedule(items: &Vec<XmlItem>, block: usize, nodes: &Vec<(String, TopologyNode)>) -> (r: Result<Vec<EventDecl>, Error>)
    requires
        block < items@.len(),
        names_unique(nodes@),
    ensures
        match events_fold(items@, children_of(items@, block as int), children_of(items@, block as int).len(), node_map(nodes@)) {
            Some(es) => r matches Ok(v) && v@.map_values(|e: EventDecl| event_view(e)) == es,
            None => r is Err,
        },
{
    let ch = children(items, block);
    proof {
        lemma_children_bounds(items@, block as int, items@.len() as int);
    }
    let ghost m = node_map(nodes@);
    let mut events: Vec<EventDecl> = Vec::new();
    let mut k: usize = 0;
    while k < ch.len()
        invariant
            ch@ == children_of(items@, block as int),
            k <= ch@.len(),
            names_unique(nodes@),
            m == node_map(nodes@),
            forall|q: int| 0 <= q < ch@.len() ==> #[trigger] ch@[q] < items@.len(),
            events_fold(items@, ch@, k as nat, m) == Some(events@.map_values(|e: EventDecl| event_view(e))),
        decreases ch@.len() - k,
    {
        let item = &items[ch[k]];
        if !item.element {
            k = k + 1;
            continue;
        }
        let ghost n_all = ch@.len();
        let decl = match event_of(item, nodes) {
            Some(d) => d,
            None => {
                proof {
                    lemma_events_fold_none(items@, ch@, (k + 1) as nat, n_all, m);
                }
                return Err(produce_err("Event must have an associated name and a recognized action on a service"));
            },
        };
        let ghost before = events@;
        events.push(decl);
        proof {
            assert(events@.map_values(|e: EventDecl| event_view(e)) =~= before.map_values(|e: EventDecl| event_view(e)).push(
                event_view(decl),
            ));
        }
        k = k + 1;
    }
    Ok(events)
}

/// The blocks of an experiment: its services, bridges, links and dynamic events.
pub type Blocks = (Option<usize>, Option<usize>, Option<usize>, Option<usize>);

/// The blocks among the first `k` children `ch` of the experiment, or nothing if a block
/// comes twice.
pub open spec fn blocks_fold(items: Seq<XmlItem>, ch: Seq<usize>, k: nat) -> Option<Blocks>
    decreases k,
{
    if k == 0 {
        Some((None, None, None, None))
    } else {
        match blocks_fold(items, ch, (k - 1) as nat) {
            None => None,
            Some(b) => {
                let j = ch[k - 1];
                let it = items[j as int];
                if !it.element {
                    Some(b)
                } else if it.tag@ == "services"@ {
                    if b.0 is Some { None } else { Some((Some(j), b.1, b.2, b.3)) }
                } else if it.tag@ == "bridges"@ {
                    if b.1 is Some { None } else { Some((b.0, Some(j), b.2, b.3)) }
                } else if it.tag@ == "links"@ {
                    if b.2 is Some { None } else { Some((b.0, b.1, Some(j), b.3)) }
                } else if it.tag@ == "dynamic"@ {
                    if b.3 is Some { None } else { Some((b.0, b.1, b.2, Some(j))) }
                } else {
                    Some(b)
                }
            },
        }
    }
}

proof fn lemma_blocks_fold_none(items: Seq<XmlItem>, ch: Seq<usize>, k1: nat, k2: nat)
    requires
        k1 <= k2,
        blocks_fold(items, ch, k1) is None,
    ensures
        blocks_fold(items, ch, k2) is None,
    decreases k2,
{
    if k2 > k1 {
        lemma_blocks_fold_none(items, ch, k1, (k2 - 1) as nat);
    }
}

/// Finds the blocks of the experiment, refusing a block that comes twice.
#[verifier::rlimit(30)]
fn find_blocks(items: &Vec<XmlItem>, root: usize) -> (r: Result<Blocks, Error>)
    requires
        root < items@.len(),
    ensures
        match blocks_fold(items@, children_of(items@, root as int), children_of(items@, root as int).len()) {
            Some(b) => r == Ok::<Blocks, Error>(b),
            None => r is Err,
        },
        r matches Ok(b) ==> (b.0 matches Some(j) ==> j < items@.len()) && (b.1 matches Some(j) ==> j < items@.len())
            && (b.2 matches Some(j) ==> j < items@.len()) && (b.3 matches Some(j) ==> j < items@.len()),
{
    proof {
        reveal_strlit("services");
        reveal_strlit("bridges");
        reveal_strlit("links");
        reveal_strlit("dynamic");
    }
    let ch = children(items, root);
    proof {
        lemma_children_bounds(items@, root as int, items@.len() as int);
    }
    let mut services: Option<usize> = None;
    let mut bridges: Option<usize> = None;
    let mut links: Option<usize> = None;
    let mut dynamic: Option<usize> = None;
    let mut k: usize = 0;
    while k < ch.len()
        invariant
            ch@ == children_of(items@, root as int),
            k <= ch@.len(),
            forall|q: int| 0 <= q < ch@.len() ==> #[trigger] ch@[q] < items@.len(),
            blocks_fold(items@, ch@, k as nat) == Some((services, bridges, links, dynamic)),
            services matches Some(j) ==> j < items@.len(),
            bridges matches Some(j) ==> j < items@.len(),
            links matches Some(j) ==> j < items@.len(),
            dynamic matches Some(j) ==> j < items@.len(),
        decreases ch@.len() - k,
    {
        let j = ch[k];
        let item = &items[j];
        let ghost n_all = ch@.len();
        if item.element {
            if tag_is(item, "services") {
                if services.is_some() {
                    proof {
                        lemma_blocks_fold_none(items@, ch@, (k + 1) as nat, n_all);
                    }
                    return Err(produce_err("Only one <services> block is allowed."));
                }
                services = Some(j);
            } else if tag_is(item, "bridges") {
                if bridges.is_some() {
                    proof {
                        lemma_blocks_fold_none(items@, ch@, (k + 1) as nat, n_all);
                    }
                    return Err(produce_err("Only one <bridges> block is allowed."));
                }
                bridges = Some(j);
            } else if tag_is(item, "links") {
                if links.is_some() {
                    proof {
                        lemma_blocks_fold_none(items@, ch@, (k + 1) as nat, n_all);
                    }
                    return Err(produce_err("Only one <links> block is allowed."));
                }
                links = Some(j);
            } else if tag_is(item, "dynamic") {
                if dynamic.is_some() {
                    proof {
                        lemma_blocks_fold_none(items@, ch@, (k + 1) as nat, n_all);
                    }
                    return Err(produce_err("Only one <dynamic> block is allowed."));
                }
                dynamic = Some(j);
            }
        }
        k = k + 1;
    }
    Ok((services, bridges, links, dynamic))
}


/// The nodes, links and scheduled events of an experiment.
#[derive(Clone, Debug)]
pub struct Topology {
    pub nodes: Vec<(String, TopologyNode)>,
    pub links: Vec<LinkDecl>,
    pub schedule: Vec<EventDecl>,
}

proof fn lemma_node_map_len(v: Seq<(String, TopologyNode)>)
    requires
        names_unique(v),
    ensures
        node_map(v).dom().finite(),
        node_map(v).dom().len() == v.len(),
    decreases v.len(),
{
    if v.len() > 0 {
        let w = v.drop_last();
        assert(names_unique(w)) by {
            assert forall|a: int, b: int| 0 <= a < b < w.len() implies (#[trigger] w[a]).0@ != (#[trigger] w[b]).0@ by {
                assert(v[a].0@ != v[b].0@);
            }
        }
        lemma_node_map_len(w);
        assert forall|j: int| 0 <= j < w.len() implies (#[trigger] w[j]).0@ != v.last().0@ by {
            assert(v[j].0@ != v[v.len() - 1].0@);
        }
        lemma_node_map_absent(w, v.last().0@);
    }
}

/// What an experiment's document declares, if it declares it right: the root element is an
/// `<experiment>` with a `boot` attribute; it has one block of services and one of links, and
/// at most one of bridges and one of dynamic events; the services are numbered from 0, the
/// bridges from the number of names taken by the services; the links and the events name
/// declared nodes.
pub open spec fn topology_spec(items: Seq<XmlItem>, emul_id: Seq<char>) -> Option<
    (Map<Seq<char>, NodeView>, Seq<LinkView>, Seq<EventView>),
> {
    if items.len() < 2 || items.len() >= 0x8000_0000 {
        None
    } else if items[1].tag@ != "experiment"@ || attr_of(items[1].attributes@, "boot"@) is None {
        None
    } else {
        let ch = children_of(items, 1);
        match blocks_fold(items, ch, ch.len()) {
            None => None,
            Some(b) => match b.0 {
                None => None,
                Some(sv) => match block_fold(
                    items,
                    children_of(items, sv as int),
                    children_of(items, sv as int).len(),
                    Map::empty(),
                    0,
                    emul_id,
                    false,
                ) {
                    None => None,
                    Some((m1, _)) => {
                        let m2 = match b.1 {
                            None => Some(m1),
                            Some(br) => match block_fold(
                                items,
                                children_of(items, br as int),
                                children_of(items, br as int).len(),
                                m1,
                                m1.dom().len() as int,
                                emul_id,
                                true,
                            ) {
                                None => None,
                                Some((m, _)) => Some(m),
                            },
                        };
                        match (m2, b.2) {
                            (Some(m), Some(lk)) => match links_fold(
                                items,
                                children_of(items, lk as int),
                                children_of(items, lk as int).len(),
                                m,
                            ) {
                                None => None,
                                Some(ls) => match b.3 {
                                    None => Some((m, ls, Seq::empty())),
                                    Some(dy) => match events_fold(
                                        items,
                                        children_of(items, dy as int),
                                        children_of(items, dy as int).len(),
                                        m,
                                    ) {
                                        None => None,
                                        Some(es) => Some((m, ls, es)),
                                    },
                                },
                            },
                            _ => None,
                        }
                    },
                },
            },
        }
    }
}

/// Reads an experiment's topology document: its services, bridges, links and schedule.
/// The containers of the services are named after the emulation `emul_id`. A document
/// that is not well formed, or that does not declare its experiment right, is refused.
pub fn parse_topology(document_text: &str, emul_id: &str) -> (r: Result<Topology, Error>)
    ensures
        match xml_items(document_text@) {
            None => r is Err,
            Some(iv) => exists|items: Seq<XmlItem>|
                #[trigger] items_view(items) == iv && match topology_spec(items, emul_id@) {
                    None => r is Err,
                    Some((m, ls, es)) => r matches Ok(t) && node_map(t.nodes@) == m && names_unique(t.nodes@)
                        && t.links@.map_values(|l: LinkDecl| link_view(l)) == ls && t.schedule@.map_values(
                        |e: EventDecl| event_view(e),
                    ) == es,
                },
        },
{
    proof {
        reveal_strlit("experiment");
    }
    let items = match parse_xml(document_text) {
        Some(v) => v,
        None => {
            return Err(produce_err("Not a well-formed XML document"));
        },
    };
    proof {
        assert(items_view(items@) == items_view(items@));
    }
    topology_from_items(&items, emul_id)
}

/// The topology that the items of an XML document describe (see `topology_spec`), or an
/// error when they describe none.
pub fn topology_from_items(items: &Vec<XmlItem>, emul_id: &str) -> (r: Result<Topology, Error>)
    ensures
        match topology_spec(items@, emul_id@) {
            None => r is Err,
            Some((m, ls, es)) => r matches Ok(t) && node_map(t.nodes@) == m && names_unique(t.nodes@)
                && t.links@.map_values(|l: LinkDecl| link_view(l)) == ls && t.schedule@.map_values(
                |e: EventDecl| event_view(e),
            ) == es,
        },
{
    proof {
        reveal_strlit("experiment");
    }
    if items.len() < 2 || items.len() >= 0x8000_0000 {
        return Err(produce_err("Not a valid Kollaps topology file, root is not <experiment>"));
    }
    let root = &items[1];
    if !tag_is(root, "experiment") {
        return Err(produce_err("Not a valid Kollaps topology file, root is not <experiment>"));
    }
    if attribute(root, "boot").is_none() {
        return Err(produce_err("<experiment boot = > The experiment needs a valid boostrapper image name"));
    }
    let (services, bridges, links, dynamic) = find_blocks(items, 1)?;
    let mut nodes: Vec<(String, TopologyNode)> = Vec::new();
    let services = match services {
        Some(sv) => sv,
        None => {
            return Err(produce_err("No services declared in topology"));
        },
    };
    proof {
        assert(node_map(nodes@) == Map::<Seq<char>, NodeView>::empty());
    }
    parse_block(items, services, emul_id, &mut nodes, false)?;
    match bridges {
        Some(br) => {
            proof {
                lemma_node_map_len(nodes@);
                lemma_children_bounds(items@, services as int, items@.len() as int);
            }
            parse_block(items, br, emul_id, &mut nodes, true)?;
        },
        None => {},
    }
    let links = match links {
        Some(lk) => lk,
        None => {
            return Err(produce_err("No links declared in topology"));
        },
    };
    let link_decls = parse_links(items, links, &nodes)?;
    let schedule = match dynamic {
        Some(dy) => parse_schedule(items, dy, &nodes)?,
        None => Vec::new(),
    };
    Ok(Topology { nodes, links: link_decls, schedule })
}

} // verus!
