//! The well-known definitions that every resolved document carries, so that
//! the names that documents commonly refer to resolve even where no file
//! defines them.
use vstd::prelude::*;
use crate::doc::{Doc, Node};

verus! {

pub open spec fn text_doc(s: Seq<char>) -> Doc {
    Doc::Str(s)
}

pub open spec fn link_doc(example: Seq<char>) -> Doc {
    Doc::Mapping(
        seq![("type"@, text_doc("string"@)), ("format"@, text_doc("uri"@)), ("example"@, text_doc(example))],
    )
}

pub open spec fn example_doc(ty: Seq<char>, example: Doc) -> Doc {
    Doc::Mapping(seq![("type"@, text_doc(ty)), ("example"@, example)])
}

pub open spec fn described_doc(example: Seq<char>, description: Seq<char>) -> Doc {
    Doc::Mapping(
        seq![
            ("type"@, text_doc("string"@)),
            ("example"@, text_doc(example)),
            ("description"@, text_doc(description)),
        ],
    )
}

pub open spec fn page_link(n: Seq<char>) -> Seq<char> {
    "https://api.digitalocean.com/v2/images?page="@ + n
}

pub open spec fn forward_links_doc() -> Doc {
    Doc::Mapping(
        seq![
            ("type"@, text_doc("object"@)),
            ("properties"@, Doc::Mapping(
                seq![
                    ("first"@, link_doc(page_link("1"@))),
                    ("last"@, link_doc(page_link("3"@))),
                    ("next"@, link_doc(page_link("2"@))),
                ],
            )),
        ],
    )
}

pub open spec fn backward_links_doc() -> Doc {
    Doc::Mapping(
        seq![
            ("type"@, text_doc("object"@)),
            ("properties"@, Doc::Mapping(
                seq![
                    ("first"@, link_doc(page_link("1"@))),
                    ("last"@, link_doc(page_link("3"@))),
                    ("prev"@, link_doc(page_link("1"@))),
                ],
            )),
        ],
    )
}

pub open spec fn tags_array_doc() -> Doc {
    let name = Doc::Mapping(
        seq![
            ("type"@, text_doc("string"@)),
            ("minLength"@, Doc::Number("1"@)),
            ("maxLength"@, Doc::Number("255"@)),
            ("example"@, text_doc("web"@)),
        ],
    );
    let resources = Doc::Mapping(
        seq![
            ("type"@, text_doc("object"@)),
            ("properties"@, Doc::Mapping(
                seq![
                    ("count"@, example_doc("integer"@, Doc::Number("0"@))),
                    ("last_tagged_uri"@, example_doc("string"@, text_doc(""@))),
                ],
            )),
        ],
    );
    Doc::Mapping(
        seq![
            ("type"@, text_doc("array"@)),
            ("items"@, Doc::Mapping(
                seq![
                    ("type"@, text_doc("object"@)),
                    ("properties"@, Doc::Mapping(seq![("name"@, name), ("resources"@, resources)])),
                    ("required"@, Doc::Sequence(seq![text_doc("name"@), text_doc("resources"@)])),
                ],
            )),
        ],
    )
}

pub open spec fn error_response_doc() -> Doc {
    Doc::Mapping(
        seq![
            ("type"@, text_doc("object"@)),
            ("properties"@, Doc::Mapping(
                seq![
                    ("id"@, example_doc("string"@, text_doc("bad_request"@))),
                    ("message"@, example_doc("string"@, text_doc("The request was invalid."@))),
                    ("request_id"@, example_doc(
                        "string"@,
                        text_doc("a1b2c3d4-e5f6-7890-abcd-ef1234567890"@),
                    )),
                ],
            )),
            ("required"@, Doc::Sequence(seq![text_doc("id"@), text_doc("message"@)])),
        ],
    )
}

pub open spec fn taint_doc() -> Doc {
    let effect = Doc::Mapping(
        seq![
            ("type"@, text_doc("string"@)),
            ("enum"@, Doc::Sequence(
                seq![
                    text_doc("NoSchedule"@),
                    text_doc("PreferNoSchedule"@),
                    text_doc("NoExecute"@),
                ],
            )),
            ("example"@, text_doc("NoSchedule"@)),
            ("description"@, text_doc("The taint effect"@)),
        ],
    );
    Doc::Mapping(
        seq![
            ("type"@, text_doc("object"@)),
            ("properties"@, Doc::Mapping(
                seq![
                    ("key"@, described_doc("node.kubernetes.io/example-key"@, "The taint key"@)),
                    ("value"@, described_doc("example-value"@, "The taint value"@)),
                    ("effect"@, effect),
                ],
            )),
            ("required"@, Doc::Sequence(seq![text_doc("key"@), text_doc("effect"@)])),
        ],
    )
}

pub open spec fn region_state_doc() -> Doc {
    Doc::Mapping(
        seq![
            ("type"@, text_doc("string"@)),
            ("enum"@, Doc::Sequence(seq![text_doc("available"@), text_doc("unavailable"@)])),
            ("example"@, text_doc("available"@)),
            ("description"@, text_doc("The availability state of the region"@)),
        ],
    )
}

pub open spec fn chatbot_doc() -> Doc {
    Doc::Mapping(
        seq![
            ("type"@, text_doc("object"@)),
            ("properties"@, Doc::Mapping(
                seq![
                    ("id"@, example_doc("string"@, text_doc("chatbot-123"@))),
                    ("name"@, example_doc("string"@, text_doc("Customer Support Bot"@))),
                    ("enabled"@, example_doc("boolean"@, Doc::Bool(true))),
                    ("settings"@, Doc::Mapping(
                        seq![
                            ("type"@, text_doc("object"@)),
                            ("additionalProperties"@, Doc::Bool(true)),
                        ],
                    )),
                ],
            )),
        ],
    )
}

/// The well-known definitions, by name, in the order they are added.
pub open spec fn catalog() -> Seq<(Seq<char>, Doc)> {
    seq![
        ("forward_links"@, forward_links_doc()),
        ("backward_links"@, backward_links_doc()),
        ("existing_tags_array"@, tags_array_doc()),
        ("error_response"@, error_response_doc()),
        ("kubernetes_node_pool_taint"@, taint_doc()),
        ("region_state"@, region_state_doc()),
        ("apiChatbot"@, chatbot_doc()),
    ]
}

fn kv(k: &str, v: Node) -> (r: (String, Node))
    ensures
        r.0@ == k@,
        r.1@ == v@,
{
    (k.to_owned(), v)
}

fn text(s: &str) -> (r: Node)
    ensures
        r@ == text_doc(s@),
{
    Node::text(s)
}

fn number(s: &str) -> (r: Node)
    ensures
        r@ == Doc::Number(s@),
{
    Node::Number(s.to_owned())
}

fn map2(a: (String, Node), b: (String, Node)) -> (r: Node)
    ensures
        r@ == Doc::Mapping(seq![(a.0@, a.1@), (b.0@, b.1@)]),
{
    let mut es: Vec<(String, Node)> = Vec::new();
    let ghost (a0, a1, b0, b1) = (a.0@, a.1@, b.0@, b.1@);
    es.push(a);
    es.push(b);
    proof {
        crate::doc::lemma_mapping_view(es);
        assert(crate::doc::entries_view(es@) =~= seq![(a0, a1), (b0, b1)]);
    }
    Node::Mapping(es)
}

fn map3(a: (String, Node), b: (String, Node), c: (String, Node)) -> (r: Node)
    ensures
        r@ == Doc::Mapping(seq![(a.0@, a.1@), (b.0@, b.1@), (c.0@, c.1@)]),
{
    let mut es: Vec<(String, Node)> = Vec::new();
    let ghost (a0, a1, b0, b1, c0, c1) = (a.0@, a.1@, b.0@, b.1@, c.0@, c.1@);
    es.push(a);
    es.push(b);
    es.push(c);
    proof {
        crate::doc::lemma_mapping_view(es);
        assert(crate::doc::entries_view(es@) =~= seq![(a0, a1), (b0, b1), (c0, c1)]);
    }
    Node::Mapping(es)
}

fn map4(a: (String, Node), b: (String, Node), c: (String, Node), d: (String, Node)) -> (r: Node)
    ensures
        r@ == Doc::Mapping(seq![(a.0@, a.1@), (b.0@, b.1@), (c.0@, c.1@), (d.0@, d.1@)]),
{
    let mut es: Vec<(String, Node)> = Vec::new();
    let ghost (a0, a1, b0, b1, c0, c1, d0, d1) = (a.0@, a.1@, b.0@, b.1@, c.0@, c.1@, d.0@, d.1@);
    es.push(a);
    es.push(b);
    es.push(c);
    es.push(d);
    proof {
        crate::doc::lemma_mapping_view(es);
        assert(crate::doc::entries_view(es@) =~= seq![(a0, a1), (b0, b1), (c0, c1), (d0, d1)]);
    }
    Node::Mapping(es)
}

fn texts2(a: &str, b: &str) -> (r: Node)
    ensures
        r@ == Doc::Sequence(seq![text_doc(a@), text_doc(b@)]),
{
    let mut v: Vec<Node> = Vec::new();
    v.push(text(a));
    v.push(text(b));
    proof {
        crate::doc::lemma_sequence_view(v);
        assert(crate::doc::items_view(v@) =~= seq![text_doc(a@), text_doc(b@)]);
    }
    Node::Sequence(v)
}

fn texts3(a: &str, b: &str, c: &str) -> (r: Node)
    ensures
        r@ == Doc::Sequence(seq![text_doc(a@), text_doc(b@), text_doc(c@)]),
{
    let mut v: Vec<Node> = Vec::new();
    v.push(text(a));
    v.push(text(b));
    v.push(text(c));
    proof {
        crate::doc::lemma_sequence_view(v);
        assert(crate::doc::items_view(v@) =~= seq![text_doc(a@), text_doc(b@), text_doc(c@)]);
    }
    Node::Sequence(v)
}

fn link(example: &str) -> (r: Node)
    ensures
        r@ == link_doc(example@),
{
    map3(kv("type", text("string")), kv("format", text("uri")), kv("example", text(example)))
}

fn example_of(ty: &str, example: Node) -> (r: Node)
    ensures
        r@ == example_doc(ty@, example@),
{
    map2(kv("type", text(ty)), kv("example", example))
}

fn described(example: &str, description: &str) -> (r: Node)
    ensures
        r@ == described_doc(example@, description@),
{
    map3(kv("type", text("string")), kv("example", text(example)), kv("description", text(description)))
}

fn page_links(last_key: &str, last_link: &str) -> (r: Node)
    ensures
        r@ == Doc::Mapping(
            seq![
                ("type"@, text_doc("object"@)),
                ("properties"@, Doc::Mapping(
                    seq![
                        ("first"@, link_doc(page_link("1"@))),
                        ("last"@, link_doc(page_link("3"@))),
                        (last_key@, link_doc(last_link@)),
                    ],
                )),
            ],
        ),
{
    let first = "https://api.digitalocean.com/v2/images?page=1";
    let last = "https://api.digitalocean.com/v2/images?page=3";
    proof {
        reveal_strlit("https://api.digitalocean.com/v2/images?page=1");
        reveal_strlit("https://api.digitalocean.com/v2/images?page=3");
        reveal_strlit("https://api.digitalocean.com/v2/images?page=");
        reveal_strlit("1");
        reveal_strlit("3");
        assert(first@ =~= page_link("1"@));
        assert(last@ =~= page_link("3"@));
    }
    map2(
        kv("type", text("object")),
        kv("properties", map3(kv("first", link(first)), kv("last", link(last)), kv(last_key, link(last_link)))),
    )
}

/// The well-known definitions, by name.
pub fn fallback_definitions() -> (r: Vec<(String, Node)>)
    ensures
        crate::doc::entries_view(r@) == catalog(),
{
    let mut r: Vec<(String, Node)> = Vec::new();
    proof {
        reveal_strlit("https://api.digitalocean.com/v2/images?page=1");
        reveal_strlit("https://api.digitalocean.com/v2/images?page=2");
        reveal_strlit("https://api.digitalocean.com/v2/images?page=");
        reveal_strlit("1");
        reveal_strlit("2");
        assert("https://api.digitalocean.com/v2/images?page=2"@ =~= page_link("2"@));
        assert("https://api.digitalocean.com/v2/images?page=1"@ =~= page_link("1"@));
    }
    r.push(kv("forward_links", page_links("next", "https://api.digitalocean.com/v2/images?page=2")));
    r.push(kv("backward_links", page_links("prev", "https://api.digitalocean.com/v2/images?page=1")));
    let name = map4(
        kv("type", text("string")),
        kv("minLength", number("1")),
        kv("maxLength", number("255")),
        kv("example", text("web")),
    );
    let resources = map2(
        kv("type", text("object")),
        kv("properties", map2(
            kv("count", example_of("integer", number("0"))),
            kv("last_tagged_uri", example_of("string", text(""))),
        )),
    );
    r.push(kv("existing_tags_array", map2(
        kv("type", text("array")),
        kv("items", map3(
            kv("type", text("object")),
            kv("properties", map2(kv("name", name), kv("resources", resources))),
            kv("required", texts2("name", "resources")),
        )),
    )));
    r.push(kv("error_response", map3(
        kv("type", text("object")),
        kv("properties", map3(
            kv("id", example_of("string", text("bad_request"))),
            kv("message", example_of("string", text("The request was invalid."))),
            kv("request_id", example_of("string", text("a1b2c3d4-e5f6-7890-abcd-ef1234567890"))),
        )),
        kv("required", texts2("id", "message")),
    )));
    let effect = map4(
        kv("type", text("string")),
        kv("enum", texts3("NoSchedule", "PreferNoSchedule", "NoExecute")),
        kv("example", text("NoSchedule")),
        kv("description", text("The taint effect")),
    );
    r.push(kv("kubernetes_node_pool_taint", map3(
        kv("type", text("object")),
        kv("properties", map3(
            kv("key", described("node.kubernetes.io/example-key", "The taint key")),
            kv("value", described("example-value", "The taint value")),
            kv("effect", effect),
        )),
        kv("required", texts2("key", "effect")),
    )));
    r.push(kv("region_state", map4(
        kv("type", text("string")),
        kv("enum", texts2("available", "unavailable")),
        kv("example", text("available")),
        kv("description", text("The availability state of the region")),
    )));
    r.push(kv("apiChatbot", map2(
        kv("type", text("object")),
        kv("properties", map4(
            kv("id", example_of("string", text("chatbot-123"))),
            kv("name", example_of("string", text("Customer Support Bot"))),
            kv("enabled", example_of("boolean", Node::Bool(true))),
            kv("settings", map2(kv("type", text("object")), kv("additionalProperties", Node::Bool(true)))),
        )),
    )));
    assert(crate::doc::entries_view(r@) =~= catalog());
    r
}

} // verus!
