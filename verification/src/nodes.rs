//! The nodes of the sound server, by its own dump.
use vstd::prelude::*;

use crate::text::{begins_with, law_text_is_found_where_it_is_a_part, starts_with};
use crate::virtmic::views;

verus! {

/// What is read of a JSON value: the string that it is, the unsigned 64-bit number that it is, and
/// its own JSON text.
pub struct Leaf {
    /// The string, if it is one.
    pub string: Option<String>,
    /// The number, if it is one.
    pub number: Option<u64>,
    /// The JSON text.
    pub json: String,
}

/// [`Leaf`] by contents.
pub ghost struct LeafView {
    /// The string, if it is one.
    pub string: Option<Seq<char>>,
    /// The number, if it is one.
    pub number: Option<u64>,
    /// The JSON text.
    pub json: Seq<char>,
}

impl View for Leaf {
    type V = LeafView;

    open spec fn view(&self) -> LeafView {
        LeafView { string: opt_view(self.string), number: self.number, json: self.json@ }
    }
}

/// The number of items of the JSON array that `bytes` write; nothing if they write none.
pub uninterp spec fn json_length_of(bytes: Seq<u8>) -> Option<nat>;

/// What is read of the value that `pointer` points to in item `i` of the JSON array that `bytes`
/// write, if there is one.
pub uninterp spec fn json_leaf_of(bytes: Seq<u8>, i: int, pointer: Seq<char>) -> Option<LeafView>;

/// A string by contents, where there is one.
pub open spec fn opt_view(s: Option<String>) -> Option<Seq<char>> {
    match s {
        Some(t) => Some(t@),
        None => None,
    }
}

/// A leaf by contents, where there is one.
pub open spec fn leaf_view(leaf: Option<Leaf>) -> Option<LeafView> {
    match leaf {
        Some(l) => Some(l@),
        None => None,
    }
}

/// Rows of leaves by contents.
pub open spec fn leaf_rows(rows: Seq<Vec<Option<Leaf>>>) -> Seq<Seq<Option<LeafView>>> {
    Seq::new(
        rows.len(),
        |i: int| Seq::new(rows[i]@.len(), |j: int| leaf_view(rows[i]@[j])),
    )
}

/// `serde_json::from_slice` and `Value::as_array`, then `Value::pointer` in every item for every
/// pointer, and `as_str`, `as_u64` and `to_string` of what it points to. The bytes are read once.
/// Which values they write is left to the names.
#[verifier::external_body]
fn json_leaves(bytes: &[u8], pointers: &Vec<String>) -> (r: Option<Vec<Vec<Option<Leaf>>>>)
    ensures
        match r {
            Some(rows) => {
                &&& json_length_of(bytes@) == Some(rows@.len())
                &&& leaf_rows(rows@) == Seq::new(
                    rows@.len(),
                    |i: int|
                        Seq::new(
                            pointers@.len(),
                            |j: int| json_leaf_of(bytes@, i, pointers@[j]@),
                        ),
                )
            },
            None => json_length_of(bytes@) is None,
        },
{
    let document: serde_json::Value = serde_json::from_slice(bytes).ok()?;
    let leaf = |v: &serde_json::Value| Leaf {
        string: v.as_str().map(|s| s.to_owned()),
        number: v.as_u64(),
        json: v.to_string(),
    };
    let row = |v: &serde_json::Value| pointers.iter().map(|p| v.pointer(p).map(leaf)).collect();
    Some(document.as_array()?.iter().map(row).collect())
}

/// A node of the sound server: what its properties say.
pub struct PwNode {
    /// Its numeric id.
    pub id: Option<u64>,
    /// `node.name`.
    pub name: Option<String>,
    /// `media.class`.
    pub class: Option<String>,
    /// `node.description`.
    pub description: Option<String>,
    /// `object.serial`, as its JSON text.
    pub serial: Option<String>,
}

/// [`PwNode`] by contents.
pub ghost struct NodeView {
    /// Its numeric id.
    pub id: Option<u64>,
    /// `node.name`.
    pub name: Option<Seq<char>>,
    /// `media.class`.
    pub class: Option<Seq<char>>,
    /// `node.description`.
    pub description: Option<Seq<char>>,
    /// `object.serial`, as its JSON text.
    pub serial: Option<Seq<char>>,
}

impl View for PwNode {
    type V = NodeView;

    open spec fn view(&self) -> NodeView {
        NodeView {
            id: self.id,
            name: opt_view(self.name),
            class: opt_view(self.class),
            description: opt_view(self.description),
            serial: opt_view(self.serial),
        }
    }
}

/// Nodes by contents.
pub open spec fn node_views(nodes: Seq<PwNode>) -> Seq<NodeView> {
    nodes.map(|i: int, n: PwNode| n@)
}

/// Where the properties of a node are in an item of the dump: the properties as a whole, and what
/// is read of them and of the item.
pub open spec fn pointers() -> Seq<Seq<char>> {
    seq![
        "/info/props"@,
        "/id"@,
        "/info/props/node.name"@,
        "/info/props/media.class"@,
        "/info/props/node.description"@,
        "/info/props/object.serial"@,
    ]
}

fn node_pointers() -> (r: Vec<String>)
    ensures
        views(r@) == pointers(),
{
    let mut r: Vec<String> = Vec::new();
    r.push("/info/props".to_owned());
    r.push("/id".to_owned());
    r.push("/info/props/node.name".to_owned());
    r.push("/info/props/media.class".to_owned());
    r.push("/info/props/node.description".to_owned());
    r.push("/info/props/object.serial".to_owned());
    assert(views(r@) =~= pointers());
    r
}

/// The string that a leaf is.
pub open spec fn string_of(leaf: Option<LeafView>) -> Option<Seq<char>> {
    match leaf {
        Some(l) => l.string,
        None => None,
    }
}

/// The node that an item of the dump describes, by the leaves that its [`pointers`] point to;
/// nothing if it has no properties.
pub open spec fn node_of(row: Seq<Option<LeafView>>) -> Option<NodeView> {
    if row[0] is None {
        None
    } else {
        Some(
            NodeView {
                id: match row[1] {
                    Some(l) => l.number,
                    None => None,
                },
                name: string_of(row[2]),
                class: string_of(row[3]),
                description: string_of(row[4]),
                serial: match row[5] {
                    Some(l) => Some(l.json),
                    None => None,
                },
            },
        )
    }
}

/// The nodes that the items of the dump describe, in order.
pub open spec fn nodes_of(rows: Seq<Seq<Option<LeafView>>>) -> Seq<NodeView>
    decreases rows.len(),
{
    if rows.len() == 0 {
        Seq::empty()
    } else {
        let before = nodes_of(rows.drop_last());
        match node_of(rows.last()) {
            Some(n) => before.push(n),
            None => before,
        }
    }
}

/// The leaves that are read of a dump: those of every item.
pub open spec fn dump_rows(dump: Seq<u8>, count: nat) -> Seq<Seq<Option<LeafView>>> {
    Seq::new(
        count,
        |i: int| Seq::new(pointers().len(), |j: int| json_leaf_of(dump, i, pointers()[j])),
    )
}

fn read_string(leaf: &Option<Leaf>) -> (r: Option<String>)
    ensures
        opt_view(r) == string_of(leaf_view(*leaf)),
{
    match leaf {
        Some(l) => l.string.clone(),
        None => None,
    }
}

/// The node that an item of the dump describes.
fn read_node(row: &Vec<Option<Leaf>>) -> (r: Option<PwNode>)
    requires
        row@.len() == 6,
    ensures
        node_of(Seq::new(row@.len(), |j: int| leaf_view(row@[j]))) == match r {
            Some(n) => Some(n@),
            None => None,
        },
{
    if row[0].is_none() {
        return None;
    }
    let id = match &row[1] {
        Some(l) => l.number,
        None => None,
    };
    let serial = match &row[5] {
        Some(l) => Some(l.json.clone()),
        None => None,
    };
    Some(
        PwNode {
            id,
            name: read_string(&row[2]),
            class: read_string(&row[3]),
            description: read_string(&row[4]),
            serial,
        },
    )
}

/// The nodes that the leaves of a dump's items describe, six leaves to an item.
pub fn nodes_from(rows: &Vec<Vec<Option<Leaf>>>) -> (r: Vec<PwNode>)
    requires
        forall|i: int| 0 <= i < rows@.len() ==> (#[trigger] rows@[i])@.len() == 6,
    ensures
        node_views(r@) == nodes_of(leaf_rows(rows@)),
{
    let ghost all = leaf_rows(rows@);
    let mut nodes: Vec<PwNode> = Vec::new();
    let mut i: usize = 0;
    assert(node_views(nodes@) =~= nodes_of(all.take(0)));
    while i < rows.len()
        invariant
            forall|k: int| 0 <= k < rows@.len() ==> (#[trigger] rows@[k])@.len() == 6,
            all == leaf_rows(rows@),
            i <= rows@.len(),
            node_views(nodes@) == nodes_of(all.take(i as int)),
        decreases rows@.len() - i,
    {
        let ghost before = nodes@;
        assert(all.take(i + 1).drop_last() =~= all.take(i as int));
        assert(all.take(i + 1).last() == all[i as int]);
        match read_node(&rows[i]) {
            Some(n) => {
                nodes.push(n);
                assert(node_views(nodes@) =~= node_views(before).push(n@));
            },
            None => {},
        }
        i += 1;
    }
    assert(all.take(all.len() as int) =~= all);
    nodes
}

/// The nodes that the sound server's dump describes; `None` if it is not a JSON array.
pub fn read_nodes(dump: &[u8]) -> (r: Option<Vec<PwNode>>)
    ensures
        match json_length_of(dump@) {
            Some(count) => r matches Some(nodes) && node_views(nodes@) == nodes_of(
                dump_rows(dump@, count),
            ),
            None => r is None,
        },
{
    let wanted = node_pointers();
    match json_leaves(dump, &wanted) {
        Some(rows) => {
            proof {
                let all = leaf_rows(rows@);
                assert forall|j: int| 0 <= j < wanted@.len() implies #[trigger] wanted@[j]@
                    == pointers()[j] by {
                    assert(views(wanted@)[j] == wanted@[j]@);
                }
                assert(wanted@.len() == views(wanted@).len());
                assert forall|i: int| 0 <= i < rows@.len() implies #[trigger] all[i] == dump_rows(
                    dump@,
                    rows@.len(),
                )[i] by {
                    assert(all[i] =~= dump_rows(dump@, rows@.len())[i]);
                }
                assert(all =~= dump_rows(dump@, rows@.len()));
                assert forall|i: int| 0 <= i < rows@.len() implies (#[trigger] rows@[i])@.len()
                    == 6 by {
                    assert(all[i].len() == rows@[i]@.len());
                }
            }
            Some(nodes_from(&rows))
        },
        None => None,
    }
}

/// Whether a string is there and is `text`.
fn is_text(s: &Option<String>, text: &str) -> (r: bool)
    ensures
        r == (opt_view(*s) == Some(text@)),
{
    match s {
        Some(t) => {
            let wanted = text.to_owned();
            *t == wanted
        },
        None => false,
    }
}

/// The serial of the first node of the given name that has one.
pub open spec fn serial_of(nodes: Seq<NodeView>, name: Seq<char>) -> Option<Seq<char>>
    decreases nodes.len(),
{
    if nodes.len() == 0 {
        None
    } else if nodes[0].name == Some(name) && nodes[0].serial is Some {
        nodes[0].serial
    } else {
        serial_of(nodes.skip(1), name)
    }
}

/// The serial of a node, by its exact name: of the first node of that name that has one.
pub fn node_serial(nodes: &Vec<PwNode>, name: &str) -> (r: Option<String>)
    ensures
        opt_view(r) == serial_of(node_views(nodes@), name@),
{
    let ghost all = node_views(nodes@);
    let mut i: usize = 0;
    assert(all.skip(0) =~= all);
    while i < nodes.len()
        invariant
            all == node_views(nodes@),
            i <= nodes@.len(),
            serial_of(all, name@) == serial_of(all.skip(i as int), name@),
        decreases nodes@.len() - i,
    {
        assert(all.skip(i as int).skip(1) =~= all.skip(i + 1));
        assert(all.skip(i as int)[0] == nodes@[i as int]@);
        if is_text(&nodes[i].name, name) && nodes[i].serial.is_some() {
            return nodes[i].serial.clone();
        }
        i += 1;
    }
    None
}

/// The id of the first node of the given name, cut down to 32 bits.
pub open spec fn id_of(nodes: Seq<NodeView>, name: Seq<char>) -> Option<u32>
    decreases nodes.len(),
{
    if nodes.len() == 0 {
        None
    } else if nodes[0].name == Some(name) {
        match nodes[0].id {
            Some(id) => Some((id % 0x1_0000_0000) as u32),
            None => None,
        }
    } else {
        id_of(nodes.skip(1), name)
    }
}

/// The numeric id of a node, by its exact name: of the first node of that name, which has one
/// or not.
pub fn node_id(nodes: &Vec<PwNode>, name: &str) -> (r: Option<u32>)
    ensures
        r == id_of(node_views(nodes@), name@),
{
    let ghost all = node_views(nodes@);
    let mut i: usize = 0;
    assert(all.skip(0) =~= all);
    while i < nodes.len()
        invariant
            all == node_views(nodes@),
            i <= nodes@.len(),
            id_of(all, name@) == id_of(all.skip(i as int), name@),
        decreases nodes@.len() - i,
    {
        assert(all.skip(i as int).skip(1) =~= all.skip(i + 1));
        assert(all.skip(i as int)[0] == nodes@[i as int]@);
        if is_text(&nodes[i].name, name) {
            return match nodes[i].id {
                Some(id) => Some((id % 0x1_0000_0000) as u32),
                None => None,
            };
        }
        i += 1;
    }
    None
}

/// A node that captures audio and whose name begins with `head`.
pub open spec fn is_source(node: NodeView, head: Seq<char>) -> bool {
    &&& node.class == Some("Audio/Source"@)
    &&& node.name matches Some(name) && begins_with(name, head)
}

/// The name of the first source whose name begins with `head`.
pub open spec fn first_source(nodes: Seq<NodeView>, head: Seq<char>) -> Option<Seq<char>>
    decreases nodes.len(),
{
    if nodes.len() == 0 {
        None
    } else if is_source(nodes[0], head) {
        nodes[0].name
    } else {
        first_source(nodes.skip(1), head)
    }
}

fn find_source(nodes: &Vec<PwNode>, head: &str) -> (r: Option<String>)
    ensures
        opt_view(r) == first_source(node_views(nodes@), head@),
{
    let ghost all = node_views(nodes@);
    let mut i: usize = 0;
    assert(all.skip(0) =~= all);
    while i < nodes.len()
        invariant
            all == node_views(nodes@),
            i <= nodes@.len(),
            first_source(all, head@) == first_source(all.skip(i as int), head@),
        decreases nodes@.len() - i,
    {
        assert(all.skip(i as int).skip(1) =~= all.skip(i + 1));
        assert(all.skip(i as int)[0] == nodes@[i as int]@);
        if is_text(&nodes[i].class, "Audio/Source") {
            if let Some(name) = &nodes[i].name {
                if starts_with(name.as_str(), head) {
                    return Some(name.clone());
                }
            }
        }
        i += 1;
    }
    None
}

/// The first real hardware capture; virtual sources are never picked.
pub fn pick_hw_source(nodes: &Vec<PwNode>) -> (r: Option<String>)
    ensures
        opt_view(r) == first_source(node_views(nodes@), "alsa_input."@),
{
    find_source(nodes, "alsa_input.")
}

/// The node to capture from: the given one; else a hardware source, USB preferred.
pub open spec fn target_of(input: Option<Seq<char>>, nodes: Seq<NodeView>) -> Option<Seq<char>> {
    match input {
        Some(name) => Some(name),
        None => match first_source(nodes, "alsa_input.usb-"@) {
            Some(name) => Some(name),
            None => first_source(nodes, "alsa_input."@),
        },
    }
}

/// The node to capture from.
pub fn capture_target(input: &Option<String>, nodes: &Vec<PwNode>) -> (r: Option<String>)
    ensures
        opt_view(r) == target_of(opt_view(*input), node_views(nodes@)),
{
    match input {
        Some(name) => Some(name.clone()),
        None => match find_source(nodes, "alsa_input.usb-") {
            Some(name) => Some(name),
            None => pick_hw_source(nodes),
        },
    }
}

/// A source that may be offered for capture: it has a name, and is not the virtual microphone.
pub open spec fn is_offered(node: NodeView) -> bool {
    &&& node.class == Some("Audio/Source"@)
    &&& node.name matches Some(name) && name.len() > 0 && name != "vc_mic"@
}

/// The name and the description of a source; its name where it has no description.
pub open spec fn offer_of(node: NodeView) -> (Seq<char>, Seq<char>) {
    let name = node.name->Some_0;
    match node.description {
        Some(d) => (name, d),
        None => (name, name),
    }
}

/// The sources that may be offered for capture, in order.
pub open spec fn offers(nodes: Seq<NodeView>) -> Seq<(Seq<char>, Seq<char>)>
    decreases nodes.len(),
{
    if nodes.len() == 0 {
        Seq::empty()
    } else {
        let before = offers(nodes.drop_last());
        if is_offered(nodes.last()) {
            before.push(offer_of(nodes.last()))
        } else {
            before
        }
    }
}

/// Pairs of strings by contents.
pub open spec fn pair_views(xs: Seq<(String, String)>) -> Seq<(Seq<char>, Seq<char>)> {
    xs.map(|i: int, p: (String, String)| (p.0@, p.1@))
}

/// The sources that may be offered for capture, by name and description.
pub fn list_sources(nodes: &Vec<PwNode>) -> (r: Vec<(String, String)>)
    ensures
        pair_views(r@) == offers(node_views(nodes@)),
{
    let ghost all = node_views(nodes@);
    let own = "vc_mic".to_owned();
    let mut r: Vec<(String, String)> = Vec::new();
    let mut i: usize = 0;
    assert(pair_views(r@) =~= offers(all.take(0)));
    while i < nodes.len()
        invariant
            own@ == "vc_mic"@,
            all == node_views(nodes@),
            i <= nodes@.len(),
            pair_views(r@) == offers(all.take(i as int)),
        decreases nodes@.len() - i,
    {
        let ghost before = r@;
        assert(all.take(i + 1).drop_last() =~= all.take(i as int));
        assert(all.take(i + 1).last() == nodes@[i as int]@);
        if is_text(&nodes[i].class, "Audio/Source") {
            if let Some(name) = &nodes[i].name {
                let is_own = *name == own;
                if !name.as_str().is_empty() && !is_own {
                    let description = match &nodes[i].description {
                        Some(d) => d.clone(),
                        None => name.clone(),
                    };
                    r.push((name.clone(), description));
                    assert(pair_views(r@) =~= pair_views(before).push(offer_of(nodes@[i as int]@)));
                }
            }
        }
        i += 1;
    }
    assert(all.take(all.len() as int) =~= all);
    r
}

/// What a probe prints of a node: its class and its label.
pub open spec fn probe_label(
    class: Option<Seq<char>>,
    description: Option<Seq<char>>,
    name: Option<Seq<char>>,
) -> Option<(Seq<char>, Seq<char>)> {
    match class {
        Some(c) => if begins_with(c, "Audio/"@) {
            let label = match description {
                Some(d) => d,
                None => match name {
                    Some(n) => n,
                    None => "?"@,
                },
            };
            Some((c, label))
        } else {
            None
        },
        None => None,
    }
}

/// What a probe prints of a node, if it is an audio node: its class, and its description, its
/// name or a question mark.
pub fn probe_entry(
    class: Option<String>,
    description: Option<String>,
    name: Option<String>,
) -> (r: Option<(String, String)>)
    ensures
        probe_label(opt_view(class), opt_view(description), opt_view(name)) == match r {
            Some((c, l)) => Some((c@, l@)),
            None => None,
        },
{
    match class {
        Some(c) => {
            if !starts_with(c.as_str(), "Audio/") {
                return None;
            }
            let label = match description {
                Some(d) => d,
                None => match name {
                    Some(n) => n,
                    None => "?".to_owned(),
                },
            };
            Some((c, label))
        },
        None => None,
    }
}

/// A node of this name that has a serial.
pub open spec fn has_serial(node: NodeView, name: Seq<char>) -> bool {
    node.name == Some(name) && node.serial is Some
}

/// A serial is that of the first node of the name that has one; there is none only where no node of
/// the name has one.
pub proof fn law_serial_is_of_the_first_that_has_one(nodes: Seq<NodeView>, name: Seq<char>)
    ensures
        forall|i: int|
            0 <= i < nodes.len() && #[trigger] has_serial(nodes[i], name) && (forall|j: int|
                0 <= j < i ==> !#[trigger] has_serial(nodes[j], name)) ==> serial_of(nodes, name)
                == nodes[i].serial,
        (forall|i: int| 0 <= i < nodes.len() ==> !#[trigger] has_serial(nodes[i], name))
            ==> serial_of(nodes, name) is None,
    decreases nodes.len(),
{
    if nodes.len() > 0 {
        let rest = nodes.skip(1);
        law_serial_is_of_the_first_that_has_one(rest, name);
        assert(forall|j: int|
            0 <= j < rest.len() ==> has_serial(#[trigger] rest[j], name) == has_serial(
                nodes[j + 1],
                name,
            ));
        assert forall|i: int|
            0 <= i < nodes.len() && #[trigger] has_serial(nodes[i], name) && (forall|j: int|
                0 <= j < i ==> !#[trigger] has_serial(nodes[j], name)) implies serial_of(
            nodes,
            name,
        ) == nodes[i].serial by {
            if i > 0 {
                assert(!has_serial(nodes[0], name));
                assert(rest[i - 1] == nodes[i]);
                assert forall|j: int| 0 <= j < i - 1 implies !#[trigger] has_serial(
                    rest[j],
                    name,
                ) by {
                    assert(!has_serial(nodes[j + 1], name));
                }
                assert(has_serial(rest[i - 1], name));
            }
        }
        if forall|i: int| 0 <= i < nodes.len() ==> !#[trigger] has_serial(nodes[i], name) {
            assert(!has_serial(nodes[0], name));
            assert forall|j: int| 0 <= j < rest.len() implies !#[trigger] has_serial(
                rest[j],
                name,
            ) by {
                assert(!has_serial(nodes[j + 1], name));
            }
        }
    }
}

/// The id is that of the first node of the name, if it has one, in its lowest 32 bits.
pub proof fn law_id_is_of_the_first_of_the_name(nodes: Seq<NodeView>, name: Seq<char>)
    ensures
        forall|i: int|
            0 <= i < nodes.len() && #[trigger] nodes[i].name == Some(name) && (forall|j: int|
                0 <= j < i ==> #[trigger] nodes[j].name != Some(name)) ==> match nodes[i].id {
                Some(id) => id_of(nodes, name) matches Some(v) && (id - v) % 0x1_0000_0000 == 0,
                None => id_of(nodes, name) is None,
            },
        (forall|i: int| 0 <= i < nodes.len() ==> #[trigger] nodes[i].name != Some(name)) ==> id_of(
            nodes,
            name,
        ) is None,
    decreases nodes.len(),
{
    if nodes.len() > 0 {
        let rest = nodes.skip(1);
        law_id_is_of_the_first_of_the_name(rest, name);
        assert forall|i: int|
            0 <= i < nodes.len() && #[trigger] nodes[i].name == Some(name) && (forall|j: int|
                0 <= j < i ==> #[trigger] nodes[j].name != Some(name)) implies match nodes[i].id {
            Some(id) => id_of(nodes, name) matches Some(v) && (id - v) % 0x1_0000_0000 == 0,
            None => id_of(nodes, name) is None,
        } by {
            if i > 0 {
                assert(nodes[0].name != Some(name));
                assert(rest[i - 1] == nodes[i]);
                assert forall|j: int| 0 <= j < i - 1 implies #[trigger] rest[j].name != Some(
                    name,
                ) by {
                    assert(nodes[j + 1].name != Some(name));
                }
                assert(rest[i - 1].name == Some(name));
            }
        }
        if forall|i: int| 0 <= i < nodes.len() ==> #[trigger] nodes[i].name != Some(name) {
            assert(nodes[0].name != Some(name));
            assert forall|j: int| 0 <= j < rest.len() implies #[trigger] rest[j].name != Some(
                name,
            ) by {
                assert(nodes[j + 1].name != Some(name));
            }
        }
    }
}

/// A source whose name goes on behind `head`.
pub open spec fn captures(node: NodeView, head: Seq<char>) -> bool {
    &&& node.class == Some("Audio/Source"@)
    &&& exists|rest: Seq<char>| node.name == Some(#[trigger] (head + rest))
}

proof fn lemma_source_captures(node: NodeView, head: Seq<char>)
    ensures
        is_source(node, head) == captures(node, head),
{
    match node.name {
        Some(name) => {
            law_text_is_found_where_it_is_a_part(name, head);
            if is_source(node, head) {
                let rest = choose|b: Seq<char>| name == #[trigger] (head + b);
                assert(node.name == Some(head + rest));
            }
            if captures(node, head) {
                let rest = choose|rest: Seq<char>| node.name == Some(#[trigger] (head + rest));
                assert(name == head + rest);
            }
        },
        None => {},
    }
}

proof fn lemma_first_source(nodes: Seq<NodeView>, head: Seq<char>)
    ensures
        forall|i: int|
            0 <= i < nodes.len() && #[trigger] captures(nodes[i], head) && (forall|j: int|
                0 <= j < i ==> !#[trigger] captures(nodes[j], head)) ==> first_source(nodes, head)
                == nodes[i].name,
        (forall|i: int| 0 <= i < nodes.len() ==> !#[trigger] captures(nodes[i], head))
            ==> first_source(nodes, head) is None,
    decreases nodes.len(),
{
    if nodes.len() > 0 {
        let rest = nodes.skip(1);
        lemma_first_source(rest, head);
        lemma_source_captures(nodes[0], head);
        assert forall|i: int|
            0 <= i < nodes.len() && #[trigger] captures(nodes[i], head) && (forall|j: int|
                0 <= j < i ==> !#[trigger] captures(nodes[j], head)) implies first_source(
            nodes,
            head,
        ) == nodes[i].name by {
            if i > 0 {
                assert(!captures(nodes[0], head));
                assert(rest[i - 1] == nodes[i]);
                assert forall|j: int| 0 <= j < i - 1 implies !#[trigger] captures(
                    rest[j],
                    head,
                ) by {
                    assert(!captures(nodes[j + 1], head));
                }
                assert(captures(rest[i - 1], head));
            }
        }
        if forall|i: int| 0 <= i < nodes.len() ==> !#[trigger] captures(nodes[i], head) {
            assert(!captures(nodes[0], head));
            assert forall|j: int| 0 <= j < rest.len() implies !#[trigger] captures(
                rest[j],
                head,
            ) by {
                assert(!captures(nodes[j + 1], head));
            }
        }
    }
}

/// The first of `nodes` that captures audio under a name that goes on behind `head` is at `at`.
pub open spec fn first_at(nodes: Seq<NodeView>, head: Seq<char>, at: int) -> bool {
    &&& 0 <= at < nodes.len()
    &&& captures(nodes[at], head)
    &&& forall|j: int| 0 <= j < at ==> !#[trigger] captures(nodes[j], head)
}

/// No node captures audio under a name that goes on behind `head`.
pub open spec fn none_captures(nodes: Seq<NodeView>, head: Seq<char>) -> bool {
    forall|j: int| 0 <= j < nodes.len() ==> !#[trigger] captures(nodes[j], head)
}

/// A node that was asked for is captured from, whatever nodes there are. Else it is the first USB
/// source; where there is none, the first hardware source; where there is none, nothing. A source
/// that is not hardware is never chosen.
pub proof fn law_capture_target(input: Option<Seq<char>>, nodes: Seq<NodeView>, at: int)
    ensures
        input is Some ==> target_of(input, nodes) == input,
        input is None && first_at(nodes, "alsa_input.usb-"@, at) ==> target_of(input, nodes)
            == nodes[at].name,
        input is None && none_captures(nodes, "alsa_input.usb-"@) && first_at(
            nodes,
            "alsa_input."@,
            at,
        ) ==> target_of(input, nodes) == nodes[at].name,
        input is None && none_captures(nodes, "alsa_input."@) ==> target_of(input, nodes) is None,
        first_at(nodes, "alsa_input."@, at) ==> first_source(nodes, "alsa_input."@)
            == nodes[at].name,
        none_captures(nodes, "alsa_input."@) ==> first_source(nodes, "alsa_input."@) is None,
{
    lemma_first_source(nodes, "alsa_input.usb-"@);
    lemma_first_source(nodes, "alsa_input."@);
    if none_captures(nodes, "alsa_input."@) {
        assert forall|j: int| 0 <= j < nodes.len() implies !#[trigger] captures(
            nodes[j],
            "alsa_input.usb-"@,
        ) by {
            assert(!captures(nodes[j], "alsa_input."@));
            if captures(nodes[j], "alsa_input.usb-"@) {
                let rest = choose|rest: Seq<char>|
                    nodes[j].name == Some(#[trigger] ("alsa_input.usb-"@ + rest));
                reveal_strlit("alsa_input.usb-");
                reveal_strlit("alsa_input.");
                reveal_strlit("usb-");
                assert("alsa_input.usb-"@ + rest =~= "alsa_input."@ + ("usb-"@ + rest));
            }
        }
    }
}

/// What is offered of a node: nothing unless it is a source with a name, which is not empty and not
/// that of the virtual microphone; its name, and its description or else its name again.
pub open spec fn offered_of(node: NodeView) -> Seq<(Seq<char>, Seq<char>)> {
    match node.name {
        Some(name) => if node.class == Some("Audio/Source"@) && name != Seq::<char>::empty() && name
            != "vc_mic"@ {
            match node.description {
                Some(text) => seq![(name, text)],
                None => seq![(name, name)],
            }
        } else {
            Seq::empty()
        },
        None => Seq::empty(),
    }
}

/// Sources are offered node by node: of nodes and further nodes, what is offered of the first and
/// then what is offered of the others; of one node, itself or nothing.
pub proof fn law_sources_are_offered_in_order(
    nodes: Seq<NodeView>,
    more: Seq<NodeView>,
    node: NodeView,
)
    ensures
        offers(nodes + more) == offers(nodes) + offers(more),
        offers(seq![node]) == offered_of(node),
    decreases more.len(),
{
    let one = seq![node];
    assert(one.drop_last() =~= Seq::<NodeView>::empty());
    assert(offers(Seq::<NodeView>::empty()) =~= Seq::empty());
    assert(one.last() == node);
    match node.name {
        Some(name) => {
            if name.len() == 0 {
                assert(name =~= Seq::<char>::empty());
            }
        },
        None => {},
    }
    assert(offers(one) =~= offered_of(node));
    if more.len() == 0 {
        assert(nodes + more =~= nodes);
        assert(offers(more) =~= Seq::empty());
        assert(offers(nodes) + offers(more) =~= offers(nodes));
    } else {
        assert((nodes + more).drop_last() =~= nodes + more.drop_last());
        law_sources_are_offered_in_order(nodes, more.drop_last(), node);
        assert(offers(nodes + more) =~= offers(nodes) + offers(more));
    }
}

/// What item `i` of a dump says of a node: nothing unless it has properties.
pub open spec fn said_of_item(dump: Seq<u8>, i: int) -> Seq<NodeView> {
    if json_leaf_of(dump, i, "/info/props"@) is None {
        Seq::empty()
    } else {
        seq![
            NodeView {
                id: match json_leaf_of(dump, i, "/id"@) {
                    Some(leaf) => leaf.number,
                    None => None,
                },
                name: match json_leaf_of(dump, i, "/info/props/node.name"@) {
                    Some(leaf) => leaf.string,
                    None => None,
                },
                class: match json_leaf_of(dump, i, "/info/props/media.class"@) {
                    Some(leaf) => leaf.string,
                    None => None,
                },
                description: match json_leaf_of(dump, i, "/info/props/node.description"@) {
                    Some(leaf) => leaf.string,
                    None => None,
                },
                serial: match json_leaf_of(dump, i, "/info/props/object.serial"@) {
                    Some(leaf) => Some(leaf.json),
                    None => None,
                },
            },
        ]
    }
}

/// A dump of one more item has the node that the item describes, if any, behind the others.
pub proof fn law_nodes_are_read_item_by_item(dump: Seq<u8>, count: nat)
    ensures
        nodes_of(dump_rows(dump, 0)) == Seq::<NodeView>::empty(),
        nodes_of(dump_rows(dump, count + 1)) == nodes_of(dump_rows(dump, count)) + said_of_item(
            dump,
            count as int,
        ),
{
    let rows = dump_rows(dump, count + 1);
    assert(rows.drop_last() =~= dump_rows(dump, count));
    let row = rows.last();
    assert(forall|j: int| 0 <= j < 6 ==> #[trigger] row[j] == json_leaf_of(
        dump,
        count as int,
        pointers()[j],
    ));
    assert(row[0] == json_leaf_of(dump, count as int, "/info/props"@));
    assert(row[1] == json_leaf_of(dump, count as int, "/id"@));
    assert(row[2] == json_leaf_of(dump, count as int, "/info/props/node.name"@));
    assert(row[3] == json_leaf_of(dump, count as int, "/info/props/media.class"@));
    assert(row[4] == json_leaf_of(dump, count as int, "/info/props/node.description"@));
    assert(row[5] == json_leaf_of(dump, count as int, "/info/props/object.serial"@));
    assert(nodes_of(rows) =~= nodes_of(dump_rows(dump, count)) + said_of_item(dump, count as int));
}

/// A probe shows the nodes whose class goes on behind `Audio/`: by their description, else by their
/// name, else by a question mark.
pub proof fn law_probe_shows_audio_nodes(
    kind: Seq<char>,
    description: Option<Seq<char>>,
    name: Option<Seq<char>>,
)
    ensures
        ({
            let class = "Audio/"@ + kind;
            let shown = probe_label(Some(class), description, name);
            &&& shown matches Some((c, label)) && c == class && match (description, name) {
                (Some(text), _) => label == text,
                (None, Some(text)) => label == text,
                (None, None) => label == "?"@,
            }
        }),
        probe_label(None, description, name) is None,
        !(exists|rest: Seq<char>| kind == #[trigger] ("Audio/"@ + rest)) ==> probe_label(
            Some(kind),
            description,
            name,
        ) is None,
{
    law_text_is_found_where_it_is_a_part("Audio/"@ + kind, "Audio/"@);
    law_text_is_found_where_it_is_a_part(kind, "Audio/"@);
}

} // verus!
