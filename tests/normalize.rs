use rsdo::responses::deduplicate_response_types;
use rsdo::sanitize::{fix_description, fix_example, sanitize_documentation};
use rsdo::Node;

fn text(s: &str) -> Node {
    Node::Str(s.to_string())
}

fn map(entries: Vec<(&str, Node)>) -> Node {
    Node::Mapping(entries.into_iter().map(|(k, v)| (k.to_string(), v)).collect())
}

fn with_responses(rs: Node) -> Node {
    map(vec![("paths", map(vec![("/things", map(vec![
        ("parameters", map(vec![("responses", map(vec![("200", text("a")), ("201", text("b")), ("202", text("c"))]))])),
        ("get", map(vec![("operationId", text("list")), ("responses", rs)])),
    ]))]))])
}

fn responses_of(doc: &Node) -> Node {
    match doc {
        Node::Mapping(es) => match &es[0].1 {
            Node::Mapping(ps) => match &ps[0].1 {
                Node::Mapping(ms) => match &ms[1].1 {
                    Node::Mapping(op) => op[1].1.deep_copy(),
                    _ => panic!(),
                },
                _ => panic!(),
            },
            _ => panic!(),
        },
        _ => panic!(),
    }
}

#[test]
fn responses_reduce_to_first_success() {
    let rs = map(vec![("200", text("ok")), ("201", text("made")), ("400", text("bad")), ("default", text("err"))]);
    let out = deduplicate_response_types(&with_responses(rs));
    assert_eq!(responses_of(&out), map(vec![("200", text("ok"))]));
}

#[test]
fn kept_success_keeps_its_first_content_type() {
    let ok = map(vec![
        ("description", text("ok")),
        ("content", map(vec![("application/json", text("j")), ("text/plain", text("t"))])),
    ]);
    let rs = map(vec![("200", ok), ("201", text("made"))]);
    let out = deduplicate_response_types(&with_responses(rs));
    assert_eq!(
        responses_of(&out),
        map(vec![("200", map(vec![
            ("description", text("ok")),
            ("content", map(vec![("application/json", text("j"))])),
        ]))])
    );
}

#[test]
fn without_success_the_first_non_default_is_kept() {
    let rs = map(vec![("default", text("err")), ("404", text("nf")), ("400", text("bad"))]);
    let out = deduplicate_response_types(&with_responses(rs));
    assert_eq!(responses_of(&out), map(vec![("404", text("nf"))]));
}

#[test]
fn small_response_sets_are_left_alone() {
    let rs = map(vec![("200", text("ok")), ("404", text("nf"))]);
    let doc = with_responses(rs.deep_copy());
    let out = deduplicate_response_types(&doc);
    assert_eq!(responses_of(&out), rs);
    assert_eq!(out, doc);
}

#[test]
fn non_method_entries_are_not_reduced() {
    let rs = map(vec![("200", text("ok")), ("201", text("made")), ("400", text("bad"))]);
    let out = deduplicate_response_types(&with_responses(rs));
    match &out {
        Node::Mapping(es) => match &es[0].1 {
            Node::Mapping(ps) => match &ps[0].1 {
                Node::Mapping(ms) => assert_eq!(
                    ms[0].1,
                    map(vec![("responses", map(vec![("200", text("a")), ("201", text("b")), ("202", text("c"))]))])
                ),
                _ => panic!(),
            },
            _ => panic!(),
        },
        _ => panic!(),
    }
}

#[test]
fn bare_fences_are_labelled_text() {
    assert_eq!(fix_description("Run:\n```\ncurl -X GET x\n```"), "Run:\n```text\ncurl -X GET x\n```");
    assert_eq!(fix_description("```  \nkubectl get pods\n"), "```text\nkubectl get pods\n");
    assert_eq!(fix_description("```json\n{}\n```\n"), "```json\n{}\n```\n");
    assert_eq!(
        fix_description("```\nls\n```\n\n```\npwd\n```\n"),
        "```text\nls\n```\n\n```text\npwd\n```\n"
    );
}

#[test]
fn links_and_brackets_are_escaped() {
    assert_eq!(
        fix_description("See https://github.com/google/re2/wiki/Syntax for [V2] on <host>:<port>"),
        "See <https://github.com/google/re2/wiki/Syntax> for \\[V2\\] on \\<host\\>:\\<port\\>"
    );
}

#[test]
fn log_template_examples_are_escaped() {
    assert_eq!(fix_example("<%pri%> DD_KEY"), "\\<%pri%\\> DD_KEY");
    assert_eq!(fix_example("<%x%>"), "<%x%>");
}

#[test]
fn sanitizing_reaches_nested_texts() {
    let doc = map(vec![(
        "items",
        Node::Sequence(vec![map(vec![
            ("description", text("on <resource>")),
            ("example", text("DD_KEY <%pri%>")),
            ("title", text("<resource>")),
        ])]),
    )]);
    let out = sanitize_documentation(&doc);
    assert_eq!(
        out,
        map(vec![(
            "items",
            Node::Sequence(vec![map(vec![
                ("description", text("on \\<resource\\>")),
                ("example", text("DD_KEY \\<%pri%\\>")),
                ("title", text("<resource>")),
            ])]),
        )])
    );
}

#[test]
fn indented_secret_command_is_fenced() {
    let desc = "Create it:\n    kubectl create secret generic docr \\\n      --from-file=.dockerconfigjson=config.json \\\n      --type=kubernetes.io/dockerconfigjson\nDone.";
    assert_eq!(
        fix_description(desc),
        "Create it:\n```text\n    kubectl create secret generic docr \\\n      --from-file=.dockerconfigjson=config.json \\\n      --type=kubernetes.io/dockerconfigjson\n```\nDone."
    );
}

#[test]
fn unfinished_secret_command_is_fenced_at_the_end() {
    let desc = "Run\n    kubectl create secret generic docr \\\n";
    assert_eq!(
        fix_description(desc),
        "Run\n```text\n    kubectl create secret generic docr \\\n\n```"
    );
}

#[test]
fn longer_backtick_run_before_a_command_is_labelled() {
    assert_eq!(fix_description("````\ncurl x"), "````text\ncurl x");
    assert_eq!(fix_description("````\n    kubectl get pods"), "````text\n    kubectl get pods");
}

#[test]
fn plain_description_is_unchanged() {
    assert_eq!(fix_description("A droplet.\nNothing to fix."), "A droplet.\nNothing to fix.");
    assert_eq!(fix_description(""), "");
}

#[test]
fn second_secret_command_flushes_the_first() {
    let desc = "    kubectl create secret generic docr a\n    kubectl create secret generic docr b\nend";
    assert_eq!(
        fix_description(desc),
        "```text\n    kubectl create secret generic docr a\n```\n```text\n    kubectl create secret generic docr b\n```\nend"
    );
}

#[test]
fn fixing_texts_twice_is_fixing_them_once() {
    let descs = [
        "See https://github.com/google/re2/wiki/Syntax and <https://github.com/google/re2/wiki/Syntax>",
        "Terms: https://www.digitalocean.com/legal/terms-of-service-agreement/",
        "on [V2] at <host>:<port> for <resource>",
        "Run:\n```\ncurl -X GET x\n```\nthen\n```\n    kubectl get pods\n```",
        "Create it:\n    kubectl create secret generic docr \\\n      --from-file=.dockerconfigjson=config.json \\\n      --type=kubernetes.io/dockerconfigjson\nDone.",
        "Run\n    kubectl create secret generic docr \\\n",
        "```\nHTTP/1.1 403 Forbidden\n```",
        "````\ncurl x",
    ];
    for d in descs.iter() {
        let once = fix_description(d);
        assert_eq!(fix_description(&once), once, "description {:?}", d);
    }
    let examples = ["<%pri%> DD_KEY", "DD_KEY <%pri%> %>", "<%pri%> only"];
    for e in examples.iter() {
        let once = fix_example(e);
        assert_eq!(fix_example(&once), once, "example {:?}", e);
    }
}

#[test]
fn bracketed_link_is_bracketed_once() {
    assert_eq!(
        fix_description("<https://github.com/google/re2/wiki/Syntax>"),
        "<https://github.com/google/re2/wiki/Syntax>"
    );
}

#[test]
fn command_inside_an_open_fence_is_not_wrapped() {
    let desc = "```\n\n    kubectl create secret generic docr\n```";
    let once = fix_description(desc);
    assert_eq!(once, "```text\n\n    kubectl create secret generic docr\n```");
    assert_eq!(fix_description(&once), once);
}
