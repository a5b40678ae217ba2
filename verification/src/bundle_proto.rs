//! The protobuf form of AndroidManifest.xml inside an App Bundle (the XML
//! messages of aapt2's Resources.proto) and its patching. The bytes are
//! decoded into these values and encoded again at the edge of the library.

use vstd::prelude::*;
use crate::replacements::Replacements;
use crate::axml::string_views;
use crate::text::string_from_chars;

verus! {

pub struct SourcePosition {
    pub line_number: u32,
    pub column_number: u32,
}

pub struct XmlNamespace {
    pub prefix: String,
    pub uri: String,
    pub source: Option<SourcePosition>,
}

pub struct BooleanValue {
    pub value: bool,
}

pub struct Reference {
    pub type_: i32,
    pub id: u32,
    pub name: String,
    pub private: bool,
    pub is_dynamic: Option<BooleanValue>,
    pub type_flags: u32,
    pub allow_raw: bool,
}

pub struct Id {}

pub struct StringValue {
    pub value: String,
}

pub struct RawString {
    pub value: String,
}

pub struct Span {
    pub tag: String,
    pub first_char: u32,
    pub last_char: u32,
}

pub struct StyledString {
    pub value: String,
    pub span: Vec<Span>,
}

pub struct FileReference {
    pub path: String,
    pub type_: i32,
}

pub struct NullType {}

pub struct EmptyType {}

/// A primitive value; the three floating-point kinds hold the bits of their `f32`.
pub enum OneofValue {
    NullValue(NullType),
    EmptyValue(EmptyType),
    FloatValue(u32),
    DimensionValueDeprecated(u32),
    FractionValueDeprecated(u32),
    IntDecimalValue(i32),
    IntHexadecimalValue(u32),
    BooleanValue(bool),
    ColorArgb8Value(u32),
    ColorRgb8Value(u32),
    ColorArgb4Value(u32),
    ColorRgb4Value(u32),
    DimensionValue(u32),
    FractionValue(u32),
}

pub struct Primitive {
    pub oneof_value: Option<OneofValue>,
}

pub enum Value {
    Ref(Reference),
    Str(StringValue),
    RawStr(RawString),
    StyledStr(StyledString),
    File(FileReference),
    Id(Id),
    Prim(Primitive),
}

pub struct Item {
    pub value: Option<Value>,
    pub flag_status: u32,
    pub flag_negated: bool,
    pub flag_name: String,
}

pub struct XmlAttribute {
    pub namespace_uri: String,
    pub name: String,
    pub value: String,
    pub source: Option<SourcePosition>,
    pub resource_id: u32,
    pub compiled_item: Option<Item>,
}

pub struct XmlElement {
    pub namespace_declaration: Vec<XmlNamespace>,
    pub namespace_uri: String,
    pub name: String,
    pub attribute: Vec<XmlAttribute>,
    pub child: Vec<XmlNode>,
}

pub enum Node {
    Element(XmlElement),
    Text(String),
}

pub struct XmlNode {
    pub node: Option<Node>,
    pub source: Option<SourcePosition>,
}

// ---------------------------------------------------------------------------
// Patching
// ---------------------------------------------------------------------------

pub open spec fn digit_char(d: nat) -> char {
    (48 + d) as char
}

/// The decimal digits of `n`, without sign or leading zeros.
pub open spec fn decimal(n: nat) -> Seq<char>
    decreases n,
{
    if n < 10 {
        seq![digit_char(n)]
    } else {
        decimal(n / 10).push(digit_char(n % 10))
    }
}

/// The decimal digits of `n`, as characters.
fn decimal_chars(n: u32) -> (digits: Vec<char>)
    ensures
        digits@ == decimal(n as nat),
    decreases n,
{
    let last: u8 = (n % 10) as u8;
    let c: char = (48u8 + last) as char;
    assert(c == digit_char((n % 10) as nat));
    if n < 10 {
        let mut digits: Vec<char> = Vec::new();
        digits.push(c);
        assert(digits@ =~= decimal(n as nat));
        digits
    } else {
        let mut digits = decimal_chars(n / 10);
        digits.push(c);
        digits
    }
}

/// `v` in decimal, as `u32::to_string` writes it.
fn decimal_string(v: u32) -> (s: String)
    ensures
        s@ == decimal(v as nat),
{
    let digits = decimal_chars(v);
    string_from_chars(&digits)
}

/// The text value an attribute has after patching.
pub open spec fn attribute_value_after(
    a: XmlAttribute,
    repl: Map<Seq<char>, Seq<char>>,
    vc: u32,
    allow: bool,
) -> Seq<char> {
    if a.name@ == "usesCleartextTraffic"@ {
        if allow {
            "true"@
        } else {
            "false"@
        }
    } else if a.name@ == "versionCode"@ {
        decimal(vc as nat)
    } else if repl.contains_key(a.value@) {
        repl[a.value@]
    } else {
        a.value@
    }
}

/// `new` is `old` whose value is set to the primitive `v`; an absent item
/// becomes one with default flags.
pub open spec fn item_prim_set(old: Option<Item>, new: Option<Item>, v: OneofValue) -> bool {
    &&& new is Some
    &&& new.unwrap().value == Some(Value::Prim(Primitive { oneof_value: Some(v) }))
    &&& match old {
        Some(oi) => {
            &&& new.unwrap().flag_status == oi.flag_status
            &&& new.unwrap().flag_negated == oi.flag_negated
            &&& new.unwrap().flag_name == oi.flag_name
        },
        None => {
            &&& new.unwrap().flag_status == 0
            &&& !new.unwrap().flag_negated
            &&& new.unwrap().flag_name@ == Seq::<char>::empty()
        },
    }
}

/// `new` is `old` whose string or raw string value, if it has one, is `s`.
pub open spec fn item_string_set(old: Option<Item>, new: Option<Item>, s: Seq<char>) -> bool {
    match old {
        None => new is None,
        Some(oi) => {
            &&& new is Some
            &&& new.unwrap().flag_status == oi.flag_status
            &&& new.unwrap().flag_negated == oi.flag_negated
            &&& new.unwrap().flag_name == oi.flag_name
            &&& match oi.value {
                Some(Value::Str(_)) => new.unwrap().value matches Some(Value::Str(v)) && v.value@
                    == s,
                Some(Value::RawStr(_)) => new.unwrap().value matches Some(Value::RawStr(v))
                    && v.value@ == s,
                _ => new.unwrap().value == oi.value,
            }
        },
    }
}

/// `new` is the attribute `old` patched.
pub open spec fn attribute_patched(
    old: XmlAttribute,
    new: XmlAttribute,
    repl: Map<Seq<char>, Seq<char>>,
    vc: u32,
    allow: bool,
) -> bool {
    &&& new.namespace_uri == old.namespace_uri
    &&& new.name == old.name
    &&& new.source == old.source
    &&& new.resource_id == old.resource_id
    &&& new.value@ == attribute_value_after(old, repl, vc, allow)
    &&& if old.name@ == "usesCleartextTraffic"@ {
        item_prim_set(old.compiled_item, new.compiled_item, OneofValue::BooleanValue(allow))
    } else if old.name@ == "versionCode"@ {
        item_prim_set(old.compiled_item, new.compiled_item, OneofValue::IntDecimalValue(vc as i32))
    } else if repl.contains_key(old.value@) {
        item_string_set(old.compiled_item, new.compiled_item, repl[old.value@])
    } else {
        new == old
    }
}

/// `new` is the tree `old` with every attribute patched.
pub open spec fn node_patched(
    old: XmlNode,
    new: XmlNode,
    repl: Map<Seq<char>, Seq<char>>,
    vc: u32,
    allow: bool,
) -> bool
    decreases old,
{
    &&& new.source == old.source
    &&& match old.node {
        Some(Node::Element(oe)) => match new.node {
            Some(Node::Element(ne)) => {
                &&& ne.namespace_declaration == oe.namespace_declaration
                &&& ne.namespace_uri == oe.namespace_uri
                &&& ne.name == oe.name
                &&& ne.attribute@.len() == oe.attribute@.len()
                &&& forall|i: int|
                    0 <= i < oe.attribute@.len() ==> attribute_patched(
                        #[trigger] oe.attribute@[i],
                        ne.attribute@[i],
                        repl,
                        vc,
                        allow,
                    )
                &&& ne.child@.len() == oe.child@.len()
                &&& forall|i: int|
                    0 <= i < oe.child@.len() ==> node_patched(
                        #[trigger] oe.child@[i],
                        ne.child@[i],
                        repl,
                        vc,
                        allow,
                    )
            },
            _ => false,
        },
        _ => new.node == old.node,
    }
}

fn set_compiled_string(attribute: &mut XmlAttribute, new_value: &String)
    ensures
        item_string_set(old(attribute).compiled_item, final(attribute).compiled_item, new_value@),
        final(attribute).namespace_uri == old(attribute).namespace_uri,
        final(attribute).name == old(attribute).name,
        final(attribute).value == old(attribute).value,
        final(attribute).source == old(attribute).source,
        final(attribute).resource_id == old(attribute).resource_id,
{
    if let Some(item) = &mut attribute.compiled_item {
        match &mut item.value {
            Some(Value::Str(value)) => value.value = new_value.clone(),
            Some(Value::RawStr(value)) => value.value = new_value.clone(),
            _ => {},
        }
    }
}

fn set_compiled_primitive(attribute: &mut XmlAttribute, value: OneofValue)
    ensures
        item_prim_set(old(attribute).compiled_item, final(attribute).compiled_item, value),
        final(attribute).namespace_uri == old(attribute).namespace_uri,
        final(attribute).name == old(attribute).name,
        final(attribute).value == old(attribute).value,
        final(attribute).source == old(attribute).source,
        final(attribute).resource_id == old(attribute).resource_id,
{
    let mut item = match attribute.compiled_item.take() {
        Some(item) => item,
        None => Item { value: None, flag_status: 0, flag_negated: false, flag_name: String::new() },
    };
    item.value = Some(Value::Prim(Primitive { oneof_value: Some(value) }));
    attribute.compiled_item = Some(item);
}

fn patch_attribute(
    attribute: &mut XmlAttribute,
    replacements: &Replacements,
    version_code: u32,
    allow_cleartext_http: bool,
)
    ensures
        attribute_patched(
            *old(attribute),
            *final(attribute),
            replacements.view(),
            version_code,
            allow_cleartext_http,
        ),
{
    let version_code_name = String::from_str("versionCode");
    let cleartext_name = String::from_str("usesCleartextTraffic");
    match replacements.get(&attribute.value) {
        Some(new_value) => {
            let new_value = new_value.clone();
            attribute.value = new_value.clone();
            set_compiled_string(attribute, &new_value);
        },
        None => {},
    }
    if attribute.name == version_code_name {
        attribute.value = decimal_string(version_code);
        set_compiled_primitive(attribute, OneofValue::IntDecimalValue(version_code as i32));
    }
    if attribute.name == cleartext_name {
        attribute.value = if allow_cleartext_http {
            String::from_str("true")
        } else {
            String::from_str("false")
        };
        set_compiled_primitive(attribute, OneofValue::BooleanValue(allow_cleartext_http));
    }
}

fn patch_node(
    node: &mut XmlNode,
    replacements: &Replacements,
    version_code: u32,
    allow_cleartext_http: bool,
)
    ensures
        node_patched(
            *old(node),
            *final(node),
            replacements.view(),
            version_code,
            allow_cleartext_http,
        ),
    decreases *old(node),
{
    match &mut node.node {
        Some(Node::Element(element)) => {
            let ghost old_element = *element;
            assert(old(node).node == Some(Node::Element(old_element)));
            let mut i: usize = 0;
            while i < element.attribute.len()
                invariant
                    i <= element.attribute@.len(),
                    element.attribute@.len() == old_element.attribute@.len(),
                    element.child == old_element.child,
                    element.namespace_declaration == old_element.namespace_declaration,
                    element.namespace_uri == old_element.namespace_uri,
                    element.name == old_element.name,
                    forall|j: int|
                        0 <= j < i ==> attribute_patched(
                            #[trigger] old_element.attribute@[j],
                            element.attribute@[j],
                            replacements.view(),
                            version_code,
                            allow_cleartext_http,
                        ),
                    forall|j: int|
                        i <= j < element.attribute@.len() ==> element.attribute@[j]
                            == old_element.attribute@[j],
                decreases element.attribute@.len() - i,
            {
                patch_attribute(
                    &mut element.attribute[i],
                    replacements,
                    version_code,
                    allow_cleartext_http,
                );
                i = i + 1;
            }
            let mut k: usize = 0;
            while k < element.child.len()
                invariant
                    k <= element.child@.len(),
                    old(node).node == Some(Node::Element(old_element)),
                    element.child@.len() == old_element.child@.len(),
                    element.attribute@.len() == old_element.attribute@.len(),
                    element.namespace_declaration == old_element.namespace_declaration,
                    element.namespace_uri == old_element.namespace_uri,
                    element.name == old_element.name,
                    forall|j: int|
                        0 <= j < element.attribute@.len() ==> attribute_patched(
                            #[trigger] old_element.attribute@[j],
                            element.attribute@[j],
                            replacements.view(),
                            version_code,
                            allow_cleartext_http,
                        ),
                    forall|j: int|
                        0 <= j < k ==> node_patched(
                            #[trigger] old_element.child@[j],
                            element.child@[j],
                            replacements.view(),
                            version_code,
                            allow_cleartext_http,
                        ),
                    forall|j: int|
                        k <= j < element.child@.len() ==> element.child@[j]
                            == old_element.child@[j],
                decreases element.child@.len() - k,
            {
                proof {
                    let on = *old(node);
                    assert(decreases_to!(on => on.node));
                    let nd = on.node->Some_0;
                    assert(decreases_to!(on.node => nd));
                    assert(nd->Element_0 == old_element);
                    assert(decreases_to!(nd => nd->Element_0));
                    assert(decreases_to!(old_element => old_element.child));
                    assert(decreases_to!(old_element.child => old_element.child@));
                    assert(decreases_to!(old_element.child@ => old_element.child@[k as int]));
                }
                patch_node(&mut element.child[k], replacements, version_code, allow_cleartext_http);
                k = k + 1;
            }
        },
        _ => {},
    }
}

/// Patches a decoded manifest: attribute values that are keys of
/// `replacements` are replaced (in compiled string items too), versionCode
/// becomes `version_code` and usesCleartextTraffic `allow_cleartext_http`,
/// each with a compiled primitive.
pub fn patch_manifest(
    root: XmlNode,
    replacements: &Replacements,
    version_code: u32,
    allow_cleartext_http: bool,
) -> (patched: XmlNode)
    ensures
        node_patched(root, patched, replacements.view(), version_code, allow_cleartext_http),
{
    let mut root = root;
    patch_node(&mut root, replacements, version_code, allow_cleartext_http);
    root
}

/// The values of the attributes in `attrs`, in order.
pub open spec fn attribute_values_of(attrs: Seq<XmlAttribute>) -> Seq<Seq<char>> {
    attrs.map_values(|a: XmlAttribute| a.value@)
}

/// The attribute values of a tree: an element's own, then its children's, in order.
pub open spec fn node_values(n: XmlNode) -> Seq<Seq<char>>
    decreases n, 0int,
{
    match n.node {
        Some(Node::Element(e)) => attribute_values_of(e.attribute@) + children_values(e.child@),
        _ => Seq::empty(),
    }
}

/// The attribute values of a sequence of trees, in order.
pub open spec fn children_values(s: Seq<XmlNode>) -> Seq<Seq<char>>
    decreases s, 1int,
{
    if s.len() == 0 {
        Seq::empty()
    } else {
        children_values(s.drop_last()) + node_values(s.last())
    }
}

fn collect_values(node: &XmlNode, values: &mut Vec<String>)
    ensures
        string_views(final(values)@) == string_views(old(values)@) + node_values(*node),
    decreases *node,
{
    match &node.node {
        Some(Node::Element(element)) => {
            let mut i: usize = 0;
            while i < element.attribute.len()
                invariant
                    i <= element.attribute@.len(),
                    string_views(values@) =~= string_views(old(values)@) + attribute_values_of(
                        element.attribute@,
                    ).take(i as int),
                decreases element.attribute@.len() - i,
            {
                let ghost before = values@;
                let v = element.attribute[i].value.clone();
                values.push(v);
                assert(string_views(values@) =~= string_views(before).push(v@));
                assert(attribute_values_of(element.attribute@).take(i + 1) =~= attribute_values_of(
                    element.attribute@,
                ).take(i as int).push(element.attribute@[i as int].value@));
                i = i + 1;
            }
            let ghost after_attributes = string_views(values@);
            assert(attribute_values_of(element.attribute@).take(element.attribute@.len() as int)
                =~= attribute_values_of(element.attribute@));
            let mut k: usize = 0;
            while k < element.child.len()
                invariant
                    k <= element.child@.len(),
                    node.node == Some(Node::Element(*element)),
                    string_views(values@) == after_attributes + children_values(
                        element.child@.take(k as int),
                    ),
                decreases element.child@.len() - k,
            {
                proof {
                    let nd = node.node->Some_0;
                    assert(decreases_to!(node.node => nd));
                    assert(decreases_to!(nd => nd->Element_0));
                    assert(decreases_to!(element.child => element.child@));
                    assert(decreases_to!(element.child@ => element.child@[k as int]));
                    assert(element.child@.take(k + 1).drop_last() =~= element.child@.take(k as int));
                    assert(element.child@.take(k + 1).last() == element.child@[k as int]);
                }
                let ghost before = string_views(values@);
                collect_values(&element.child[k], values);
                assert(string_views(values@) =~= after_attributes + children_values(
                    element.child@.take(k + 1),
                ));
                k = k + 1;
            }
            assert(element.child@.take(element.child@.len() as int) =~= element.child@);
        },
        _ => {
            assert(string_views(values@) =~= string_views(old(values)@) + node_values(*node));
        },
    }
}

/// All attribute values of a decoded manifest, in document order.
pub fn attribute_values(root: &XmlNode) -> (values: Vec<String>)
    ensures
        string_views(values@) == node_values(*root),
{
    let mut values: Vec<String> = Vec::new();
    collect_values(root, &mut values);
    assert(string_views(Seq::<String>::empty()) =~= Seq::<Seq<char>>::empty());
    assert(string_views(values@) =~= node_values(*root));
    values
}

/// The values that patching gives the attributes `attrs`, in order.
pub open spec fn patched_attribute_values(
    attrs: Seq<XmlAttribute>,
    repl: Map<Seq<char>, Seq<char>>,
    vc: u32,
    allow: bool,
) -> Seq<Seq<char>> {
    attrs.map_values(|a: XmlAttribute| attribute_value_after(a, repl, vc, allow))
}

/// The attribute values of the tree `n` as patching turns them, in the
/// order of `node_values`.
pub open spec fn node_values_after(
    n: XmlNode,
    repl: Map<Seq<char>, Seq<char>>,
    vc: u32,
    allow: bool,
) -> Seq<Seq<char>>
    decreases n, 0int,
{
    match n.node {
        Some(Node::Element(e)) => patched_attribute_values(e.attribute@, repl, vc, allow)
            + children_values_after(e.child@, repl, vc, allow),
        _ => Seq::empty(),
    }
}

pub open spec fn children_values_after(
    s: Seq<XmlNode>,
    repl: Map<Seq<char>, Seq<char>>,
    vc: u32,
    allow: bool,
) -> Seq<Seq<char>>
    decreases s, 1int,
{
    if s.len() == 0 {
        Seq::empty()
    } else {
        children_values_after(s.drop_last(), repl, vc, allow) + node_values_after(
            s.last(),
            repl,
            vc,
            allow,
        )
    }
}

/// Reading back the attribute values of a patched manifest gives, in
/// document order, each value of the original as patching turns it: the
/// replacement of a value that the table holds, the version code in decimal
/// for versionCode, "true" or "false" for usesCleartextTraffic, and any other
/// value unchanged.
pub proof fn lemma_patched_values(
    old: XmlNode,
    new: XmlNode,
    repl: Map<Seq<char>, Seq<char>>,
    vc: u32,
    allow: bool,
)
    requires
        node_patched(old, new, repl, vc, allow),
    ensures
        node_values(new) == node_values_after(old, repl, vc, allow),
    decreases old, 0int,
{
    match old.node {
        Some(Node::Element(oe)) => {
            let ne = new.node->Some_0->Element_0;
            assert(attribute_values_of(ne.attribute@) =~= patched_attribute_values(
                oe.attribute@,
                repl,
                vc,
                allow,
            )) by {
                assert forall|i: int| 0 <= i < oe.attribute@.len() implies attribute_values_of(
                    ne.attribute@,
                )[i] == patched_attribute_values(oe.attribute@, repl, vc, allow)[i] by {
                    assert(attribute_patched(oe.attribute@[i], ne.attribute@[i], repl, vc, allow));
                }
            }
            let nd = old.node->Some_0;
            assert(decreases_to!(old => old.node));
            assert(decreases_to!(old.node => nd));
            assert(decreases_to!(nd => nd->Element_0));
            assert(decreases_to!(oe => oe.child));
            assert(decreases_to!(oe.child => oe.child@));
            lemma_patched_children(oe.child@, ne.child@, repl, vc, allow);
        },
        _ => {},
    }
}

/// `lemma_patched_values` for a sequence of trees.
pub proof fn lemma_patched_children(
    old: Seq<XmlNode>,
    new: Seq<XmlNode>,
    repl: Map<Seq<char>, Seq<char>>,
    vc: u32,
    allow: bool,
)
    requires
        old.len() == new.len(),
        forall|i: int| 0 <= i < old.len() ==> node_patched(#[trigger] old[i], new[i], repl, vc, allow),
    ensures
        children_values(new) == children_values_after(old, repl, vc, allow),
    decreases old, 1int,
{
    if old.len() > 0 {
        let last = old.len() - 1;
        assert(node_patched(old[last], new[last], repl, vc, allow));
        lemma_patched_values(old.last(), new.last(), repl, vc, allow);
        assert(decreases_to!(old => old.drop_last()));
        lemma_patched_children(old.drop_last(), new.drop_last(), repl, vc, allow);
    }
}

/// Whether no value that patching can give an attribute is itself a key of
/// the table: no replacement, neither "true" nor "false", nor the version
/// code in decimal.
pub open spec fn no_key_produced(repl: Map<Seq<char>, Seq<char>>, vc: u32) -> bool {
    &&& forall|k: Seq<char>| #[trigger] repl.contains_key(k) ==> !repl.contains_key(repl[k])
    &&& !repl.contains_key("true"@)
    &&& !repl.contains_key("false"@)
    &&& !repl.contains_key(decimal(vc as nat))
}

/// Whether no value that patching gives an attribute has the property
/// `bad`, where only keys of the table have it.
pub open spec fn avoids(repl: Map<Seq<char>, Seq<char>>, vc: u32, bad: spec_fn(Seq<char>) -> bool) -> bool {
    &&& !bad("true"@)
    &&& !bad("false"@)
    &&& !bad(decimal(vc as nat))
    &&& forall|k: Seq<char>| #[trigger] repl.contains_key(k) ==> !bad(repl[k])
    &&& forall|v: Seq<char>| #[trigger] bad(v) ==> repl.contains_key(v)
}

proof fn lemma_values_after_avoid(
    n: XmlNode,
    repl: Map<Seq<char>, Seq<char>>,
    vc: u32,
    allow: bool,
    bad: spec_fn(Seq<char>) -> bool,
)
    requires
        avoids(repl, vc, bad),
    ensures
        forall|i: int|
            0 <= i < node_values_after(n, repl, vc, allow).len() ==> !bad(
                #[trigger] node_values_after(n, repl, vc, allow)[i],
            ),
    decreases n, 0int,
{
    match n.node {
        Some(Node::Element(e)) => {
            let own = patched_attribute_values(e.attribute@, repl, vc, allow);
            assert forall|i: int| 0 <= i < own.len() implies !bad(#[trigger] own[i]) by {
                let a = e.attribute@[i];
                if repl.contains_key(a.value@) {
                    assert(!bad(repl[a.value@]));
                } else if bad(a.value@) {
                    assert(repl.contains_key(a.value@));
                }
            }
            let nd = n.node->Some_0;
            assert(decreases_to!(n => n.node));
            assert(decreases_to!(n.node => nd));
            assert(decreases_to!(nd => nd->Element_0));
            assert(decreases_to!(e => e.child));
            assert(decreases_to!(e.child => e.child@));
            lemma_children_after_avoid(e.child@, repl, vc, allow, bad);
            let rest = children_values_after(e.child@, repl, vc, allow);
            assert forall|i: int|
                0 <= i < node_values_after(n, repl, vc, allow).len() implies !bad(
                #[trigger] node_values_after(n, repl, vc, allow)[i],
            ) by {
                if i >= own.len() {
                    assert(node_values_after(n, repl, vc, allow)[i] == rest[i - own.len()]);
                } else {
                    assert(node_values_after(n, repl, vc, allow)[i] == own[i]);
                }
            }
        },
        _ => {},
    }
}

proof fn lemma_children_after_avoid(
    s: Seq<XmlNode>,
    repl: Map<Seq<char>, Seq<char>>,
    vc: u32,
    allow: bool,
    bad: spec_fn(Seq<char>) -> bool,
)
    requires
        avoids(repl, vc, bad),
    ensures
        forall|i: int|
            0 <= i < children_values_after(s, repl, vc, allow).len() ==> !bad(
                #[trigger] children_values_after(s, repl, vc, allow)[i],
            ),
    decreases s, 1int,
{
    if s.len() > 0 {
        assert(decreases_to!(s => s.drop_last()));
        lemma_children_after_avoid(s.drop_last(), repl, vc, allow, bad);
        lemma_values_after_avoid(s.last(), repl, vc, allow, bad);
        let a = children_values_after(s.drop_last(), repl, vc, allow);
        let b = node_values_after(s.last(), repl, vc, allow);
        assert forall|i: int|
            0 <= i < children_values_after(s, repl, vc, allow).len() implies !bad(
            #[trigger] children_values_after(s, repl, vc, allow)[i],
        ) by {
            if i < a.len() {
                assert(children_values_after(s, repl, vc, allow)[i] == a[i]);
            } else {
                assert(children_values_after(s, repl, vc, allow)[i] == b[i - a.len()]);
            }
        }
    }
}

/// No placeholder is left in a patched manifest: where no value that
/// patching gives is itself a key of the table, no attribute value of the
/// patched manifest is a key of the table.
pub proof fn lemma_no_placeholder_left(
    old: XmlNode,
    new: XmlNode,
    repl: Map<Seq<char>, Seq<char>>,
    vc: u32,
    allow: bool,
)
    requires
        node_patched(old, new, repl, vc, allow),
        no_key_produced(repl, vc),
    ensures
        forall|i: int| 0 <= i < node_values(new).len() ==> !repl.contains_key(#[trigger] node_values(new)[i]),
{
    lemma_patched_values(old, new, repl, vc, allow);
    let bad = |s: Seq<char>| repl.contains_key(s);
    assert(avoids(repl, vc, bad));
    lemma_values_after_avoid(old, repl, vc, allow, bad);
    assert forall|i: int| 0 <= i < node_values(new).len() implies !repl.contains_key(
        #[trigger] node_values(new)[i],
    ) by {
        assert(!bad(node_values_after(old, repl, vc, allow)[i]));
    }
}

/// Whether the key `k` of the table is no value that patching gives an
/// attribute: no replacement is `k`, nor "true", "false" or the version
/// code in decimal.
pub open spec fn key_not_produced(repl: Map<Seq<char>, Seq<char>>, vc: u32, k: Seq<char>) -> bool {
    &&& repl.contains_key(k)
    &&& forall|j: Seq<char>| #[trigger] repl.contains_key(j) ==> repl[j] != k
    &&& k != "true"@
    &&& k != "false"@
    &&& k != decimal(vc as nat)
}

/// The attributes of a tree: an element's own, then its children's, in order.
pub open spec fn node_attributes(n: XmlNode) -> Seq<XmlAttribute>
    decreases n, 0int,
{
    match n.node {
        Some(Node::Element(e)) => e.attribute@ + children_attributes(e.child@),
        _ => Seq::empty(),
    }
}

/// The attributes of a sequence of trees, in order.
pub open spec fn children_attributes(s: Seq<XmlNode>) -> Seq<XmlAttribute>
    decreases s, 1int,
{
    if s.len() == 0 {
        Seq::empty()
    } else {
        children_attributes(s.drop_last()) + node_attributes(s.last())
    }
}

proof fn lemma_values_after_by_attribute(
    n: XmlNode,
    repl: Map<Seq<char>, Seq<char>>,
    vc: u32,
    allow: bool,
)
    ensures
        node_values_after(n, repl, vc, allow) == patched_attribute_values(
            node_attributes(n),
            repl,
            vc,
            allow,
        ),
    decreases n, 0int,
{
    match n.node {
        Some(Node::Element(e)) => {
            let nd = n.node->Some_0;
            assert(decreases_to!(n => n.node));
            assert(decreases_to!(n.node => nd));
            assert(decreases_to!(nd => nd->Element_0));
            assert(decreases_to!(e => e.child));
            assert(decreases_to!(e.child => e.child@));
            lemma_children_after_by_attribute(e.child@, repl, vc, allow);
            assert(patched_attribute_values(e.attribute@ + children_attributes(e.child@), repl, vc, allow)
                =~= patched_attribute_values(e.attribute@, repl, vc, allow) + patched_attribute_values(
                children_attributes(e.child@),
                repl,
                vc,
                allow,
            ));
        },
        _ => {
            assert(patched_attribute_values(Seq::empty(), repl, vc, allow) =~= Seq::empty());
        },
    }
}

proof fn lemma_children_after_by_attribute(
    s: Seq<XmlNode>,
    repl: Map<Seq<char>, Seq<char>>,
    vc: u32,
    allow: bool,
)
    ensures
        children_values_after(s, repl, vc, allow) == patched_attribute_values(
            children_attributes(s),
            repl,
            vc,
            allow,
        ),
    decreases s, 1int,
{
    if s.len() == 0 {
        assert(patched_attribute_values(Seq::empty(), repl, vc, allow) =~= Seq::empty());
    } else {
        assert(decreases_to!(s => s.drop_last()));
        lemma_children_after_by_attribute(s.drop_last(), repl, vc, allow);
        lemma_values_after_by_attribute(s.last(), repl, vc, allow);
        assert(patched_attribute_values(
            children_attributes(s.drop_last()) + node_attributes(s.last()),
            repl,
            vc,
            allow,
        ) =~= patched_attribute_values(children_attributes(s.drop_last()), repl, vc, allow)
            + patched_attribute_values(node_attributes(s.last()), repl, vc, allow));
    }
}

/// A placeholder that an attribute of the manifest holds, other than
/// versionCode and usesCleartextTraffic, has its replacement among the
/// attribute values of the patched manifest.
pub proof fn lemma_replacement_present(
    old: XmlNode,
    new: XmlNode,
    repl: Map<Seq<char>, Seq<char>>,
    vc: u32,
    allow: bool,
    k: Seq<char>,
)
    requires
        node_patched(old, new, repl, vc, allow),
        repl.contains_key(k),
        exists|i: int|
            0 <= i < node_attributes(old).len() && (#[trigger] node_attributes(old)[i]).value@ == k
                && node_attributes(old)[i].name@ != "versionCode"@ && node_attributes(old)[i].name@
                != "usesCleartextTraffic"@,
    ensures
        node_values(new).contains(repl[k]),
{
    lemma_patched_values(old, new, repl, vc, allow);
    lemma_values_after_by_attribute(old, repl, vc, allow);
    let i = choose|i: int|
        0 <= i < node_attributes(old).len() && (#[trigger] node_attributes(old)[i]).value@ == k
            && node_attributes(old)[i].name@ != "versionCode"@ && node_attributes(old)[i].name@
            != "usesCleartextTraffic"@;
    assert(node_values(new)[i] == repl[k]);
}

/// Patching pairs the attributes of the two trees in document order, each
/// with its patched form.
pub proof fn lemma_patched_attributes(
    old: XmlNode,
    new: XmlNode,
    repl: Map<Seq<char>, Seq<char>>,
    vc: u32,
    allow: bool,
)
    requires
        node_patched(old, new, repl, vc, allow),
    ensures
        node_attributes(new).len() == node_attributes(old).len(),
        forall|i: int|
            0 <= i < node_attributes(old).len() ==> attribute_patched(
                #[trigger] node_attributes(old)[i],
                node_attributes(new)[i],
                repl,
                vc,
                allow,
            ),
    decreases old, 0int,
{
    match old.node {
        Some(Node::Element(oe)) => {
            let ne = new.node->Some_0->Element_0;
            let nd = old.node->Some_0;
            assert(decreases_to!(old => old.node));
            assert(decreases_to!(old.node => nd));
            assert(decreases_to!(nd => nd->Element_0));
            assert(decreases_to!(oe => oe.child));
            assert(decreases_to!(oe.child => oe.child@));
            lemma_patched_children_attributes(oe.child@, ne.child@, repl, vc, allow);
            let a = oe.attribute@;
            assert forall|i: int| 0 <= i < node_attributes(old).len() implies attribute_patched(
                #[trigger] node_attributes(old)[i],
                node_attributes(new)[i],
                repl,
                vc,
                allow,
            ) by {
                if i < a.len() {
                    assert(node_attributes(old)[i] == a[i]);
                    assert(node_attributes(new)[i] == ne.attribute@[i]);
                    assert(attribute_patched(a[i], ne.attribute@[i], repl, vc, allow));
                } else {
                    assert(node_attributes(old)[i] == children_attributes(oe.child@)[i - a.len()]);
                    assert(node_attributes(new)[i] == children_attributes(ne.child@)[i - a.len()]);
                }
            }
        },
        _ => {},
    }
}

proof fn lemma_patched_children_attributes(
    old: Seq<XmlNode>,
    new: Seq<XmlNode>,
    repl: Map<Seq<char>, Seq<char>>,
    vc: u32,
    allow: bool,
)
    requires
        old.len() == new.len(),
        forall|i: int| 0 <= i < old.len() ==> node_patched(#[trigger] old[i], new[i], repl, vc, allow),
    ensures
        children_attributes(new).len() == children_attributes(old).len(),
        forall|i: int|
            0 <= i < children_attributes(old).len() ==> attribute_patched(
                #[trigger] children_attributes(old)[i],
                children_attributes(new)[i],
                repl,
                vc,
                allow,
            ),
    decreases old, 1int,
{
    if old.len() > 0 {
        let last = old.len() - 1;
        assert(node_patched(old[last], new[last], repl, vc, allow));
        lemma_patched_attributes(old.last(), new.last(), repl, vc, allow);
        assert(decreases_to!(old => old.drop_last()));
        lemma_patched_children_attributes(old.drop_last(), new.drop_last(), repl, vc, allow);
        let a = children_attributes(old.drop_last());
        assert forall|i: int| 0 <= i < children_attributes(old).len() implies attribute_patched(
            #[trigger] children_attributes(old)[i],
            children_attributes(new)[i],
            repl,
            vc,
            allow,
        ) by {
            if i < a.len() {
                assert(children_attributes(old)[i] == a[i]);
                assert(children_attributes(new)[i] == children_attributes(new.drop_last())[i]);
            } else {
                assert(children_attributes(old)[i] == node_attributes(old.last())[i - a.len()]);
                assert(children_attributes(new)[i] == node_attributes(new.last())[i - a.len()]);
            }
        }
    }
}

/// Whether the tree has nothing to patch: no attribute value is a key of
/// the table and no attribute is named versionCode or usesCleartextTraffic.
pub open spec fn nothing_to_patch(n: XmlNode, repl: Map<Seq<char>, Seq<char>>) -> bool {
    forall|i: int|
        0 <= i < node_attributes(n).len() ==> {
            let a = #[trigger] node_attributes(n)[i];
            &&& !repl.contains_key(a.value@)
            &&& a.name@ != "versionCode"@
            &&& a.name@ != "usesCleartextTraffic"@
        }
}

/// Whether `new` is the tree `old` as it was: every element keeps its
/// namespace declarations, namespace, name and attributes (each field of
/// each), every other node is the same, and so on down the children.
pub open spec fn node_same(old: XmlNode, new: XmlNode) -> bool
    decreases old,
{
    &&& new.source == old.source
    &&& match old.node {
        Some(Node::Element(oe)) => match new.node {
            Some(Node::Element(ne)) => {
                &&& ne.namespace_declaration == oe.namespace_declaration
                &&& ne.namespace_uri == oe.namespace_uri
                &&& ne.name == oe.name
                &&& ne.attribute@ == oe.attribute@
                &&& ne.child@.len() == oe.child@.len()
                &&& forall|i: int|
                    0 <= i < oe.child@.len() ==> node_same(#[trigger] oe.child@[i], ne.child@[i])
            },
            _ => false,
        },
        _ => new.node == old.node,
    }
}

/// Whether no attribute in `attrs` has anything to patch.
pub open spec fn attributes_untouched(attrs: Seq<XmlAttribute>, repl: Map<Seq<char>, Seq<char>>) -> bool {
    forall|i: int|
        0 <= i < attrs.len() ==> {
            let a = #[trigger] attrs[i];
            &&& !repl.contains_key(a.value@)
            &&& a.name@ != "versionCode"@
            &&& a.name@ != "usesCleartextTraffic"@
        }
}

proof fn lemma_children_untouched(s: Seq<XmlNode>, repl: Map<Seq<char>, Seq<char>>)
    requires
        attributes_untouched(children_attributes(s), repl),
    ensures
        forall|i: int| 0 <= i < s.len() ==> nothing_to_patch(#[trigger] s[i], repl),
    decreases s.len(),
{
    if s.len() > 0 {
        let a = children_attributes(s.drop_last());
        let b = node_attributes(s.last());
        assert(children_attributes(s) == a + b);
        assert(attributes_untouched(a, repl)) by {
            assert forall|j: int| 0 <= j < a.len() implies #[trigger] a[j] == children_attributes(s)[j] by {}
        }
        assert(nothing_to_patch(s.last(), repl)) by {
            assert forall|j: int| 0 <= j < b.len() implies #[trigger] b[j] == children_attributes(s)[j + a.len()] by {}
        }
        lemma_children_untouched(s.drop_last(), repl);
        assert forall|i: int| 0 <= i < s.len() implies nothing_to_patch(#[trigger] s[i], repl) by {
            if i < s.len() - 1 {
                assert(s[i] == s.drop_last()[i]);
            }
        }
    }
}

/// Patching a tree with nothing to patch gives the tree back as it was:
/// every element keeps its declarations, names and attributes, down to each
/// attribute's every field, and every other node is the same.
pub proof fn lemma_nothing_to_patch_same(
    old: XmlNode,
    new: XmlNode,
    repl: Map<Seq<char>, Seq<char>>,
    vc: u32,
    allow: bool,
)
    requires
        node_patched(old, new, repl, vc, allow),
        nothing_to_patch(old, repl),
    ensures
        node_same(old, new),
    decreases old,
{
    match old.node {
        Some(Node::Element(oe)) => {
            let ne = new.node->Some_0->Element_0;
            assert(node_attributes(old) == oe.attribute@ + children_attributes(oe.child@));
            assert forall|i: int| 0 <= i < oe.attribute@.len() implies #[trigger] ne.attribute@[i]
                == oe.attribute@[i] by {
                assert(node_attributes(old)[i] == oe.attribute@[i]);
                assert(attribute_patched(oe.attribute@[i], ne.attribute@[i], repl, vc, allow));
            }
            assert(ne.attribute@ =~= oe.attribute@);
            assert(attributes_untouched(children_attributes(oe.child@), repl)) by {
                let k = oe.attribute@.len();
                assert forall|j: int| 0 <= j < children_attributes(oe.child@).len() implies #[trigger]
                    children_attributes(oe.child@)[j] == node_attributes(old)[j + k] by {}
            }
            lemma_children_untouched(oe.child@, repl);
            let nd = old.node->Some_0;
            assert(decreases_to!(old => old.node));
            assert(decreases_to!(old.node => nd));
            assert(decreases_to!(nd => nd->Element_0));
            assert(decreases_to!(oe => oe.child));
            assert(decreases_to!(oe.child => oe.child@));
            assert forall|i: int| 0 <= i < oe.child@.len() implies node_same(
                #[trigger] oe.child@[i],
                ne.child@[i],
            ) by {
                assert(decreases_to!(oe.child@ => oe.child@[i]));
                assert(node_patched(oe.child@[i], ne.child@[i], repl, vc, allow));
                assert(nothing_to_patch(oe.child@[i], repl));
                lemma_nothing_to_patch_same(oe.child@[i], ne.child@[i], repl, vc, allow);
            }
        },
        _ => {},
    }
}

/// Patching a tree with nothing to patch changes no attribute: each keeps
/// its namespace, name, value, source, resource ID and compiled item.
pub proof fn lemma_nothing_to_patch_unchanged(
    old: XmlNode,
    new: XmlNode,
    repl: Map<Seq<char>, Seq<char>>,
    vc: u32,
    allow: bool,
)
    requires
        node_patched(old, new, repl, vc, allow),
        nothing_to_patch(old, repl),
    ensures
        node_attributes(new).len() == node_attributes(old).len(),
        forall|i: int|
            0 <= i < node_attributes(old).len() ==> {
                let a = #[trigger] node_attributes(old)[i];
                let b = node_attributes(new)[i];
                &&& b.namespace_uri == a.namespace_uri
                &&& b.name == a.name
                &&& b.value@ == a.value@
                &&& b.source == a.source
                &&& b.resource_id == a.resource_id
                &&& b.compiled_item == a.compiled_item
            },
        node_values(new) == node_values(old),
{
    lemma_patched_attributes(old, new, repl, vc, allow);
    lemma_patched_values(old, new, repl, vc, allow);
    lemma_values_after_by_attribute(old, repl, vc, allow);
    lemma_values_by_attribute(old);
    assert(node_values_after(old, repl, vc, allow) =~= node_values(old)) by {
        assert forall|i: int| 0 <= i < node_attributes(old).len() implies patched_attribute_values(
            node_attributes(old),
            repl,
            vc,
            allow,
        )[i] == attribute_values_of(node_attributes(old))[i] by {
            let a = node_attributes(old)[i];
            assert(!repl.contains_key(a.value@));
        }
    }
    assert forall|i: int| 0 <= i < node_attributes(old).len() implies {
        let a = #[trigger] node_attributes(old)[i];
        let b = node_attributes(new)[i];
        &&& b.namespace_uri == a.namespace_uri
        &&& b.name == a.name
        &&& b.value@ == a.value@
        &&& b.source == a.source
        &&& b.resource_id == a.resource_id
        &&& b.compiled_item == a.compiled_item
    } by {
        assert(attribute_patched(node_attributes(old)[i], node_attributes(new)[i], repl, vc, allow));
    }
}

proof fn lemma_values_by_attribute(n: XmlNode)
    ensures
        node_values(n) == attribute_values_of(node_attributes(n)),
    decreases n, 0int,
{
    match n.node {
        Some(Node::Element(e)) => {
            let nd = n.node->Some_0;
            assert(decreases_to!(n => n.node));
            assert(decreases_to!(n.node => nd));
            assert(decreases_to!(nd => nd->Element_0));
            assert(decreases_to!(e => e.child));
            assert(decreases_to!(e.child => e.child@));
            lemma_children_values_by_attribute(e.child@);
            assert(attribute_values_of(e.attribute@ + children_attributes(e.child@))
                =~= attribute_values_of(e.attribute@) + attribute_values_of(children_attributes(e.child@)));
        },
        _ => {
            assert(attribute_values_of(Seq::empty()) =~= Seq::empty());
        },
    }
}

proof fn lemma_children_values_by_attribute(s: Seq<XmlNode>)
    ensures
        children_values(s) == attribute_values_of(children_attributes(s)),
    decreases s, 1int,
{
    if s.len() == 0 {
        assert(attribute_values_of(Seq::empty()) =~= Seq::empty());
    } else {
        assert(decreases_to!(s => s.drop_last()));
        lemma_children_values_by_attribute(s.drop_last());
        lemma_values_by_attribute(s.last());
        assert(attribute_values_of(children_attributes(s.drop_last()) + node_attributes(s.last()))
            =~= attribute_values_of(children_attributes(s.drop_last())) + attribute_values_of(
            node_attributes(s.last()),
        ));
    }
}

/// A placeholder that no replacement brings back is gone from a patched
/// manifest: no attribute value of the patched manifest is that key.
pub proof fn lemma_key_not_left(
    old: XmlNode,
    new: XmlNode,
    repl: Map<Seq<char>, Seq<char>>,
    vc: u32,
    allow: bool,
    k: Seq<char>,
)
    requires
        node_patched(old, new, repl, vc, allow),
        key_not_produced(repl, vc, k),
    ensures
        !node_values(new).contains(k),
{
    lemma_patched_values(old, new, repl, vc, allow);
    let bad = |s: Seq<char>| s == k;
    assert(avoids(repl, vc, bad));
    lemma_values_after_avoid(old, repl, vc, allow, bad);
    if node_values(new).contains(k) {
        let i = choose|i: int| 0 <= i < node_values(new).len() && node_values(new)[i] == k;
        assert(!bad(node_values_after(old, repl, vc, allow)[i]));
    }
}

} // verus!
