use handlebars_context::block::{BlockContext, BlockParams};
use handlebars_context::context::{self, Context};
use handlebars_context::error::RenderError;
use handlebars_context::json::{Json, Number, ScopedJson, StrMap};
use handlebars_context::path::{PathSeg, Rule};
use std::collections::VecDeque;

/// Splits a template path into its segments: an optional `this/`, `this.`
/// or `./` at the start, then `@root`, then any number of `../`, then keys
/// separated by `/` or `.`, where `[...]` holds a key verbatim.
fn parse_path(raw: &str) -> Vec<PathSeg> {
    let mut segs = Vec::new();
    let mut rest = raw;
    for prefix in ["this/", "this.", "./"] {
        if let Some(r) = rest.strip_prefix(prefix) {
            rest = r;
            break;
        }
    }
    if let Some(r) = rest.strip_prefix("@root") {
        segs.push(PathSeg::Ruled(Rule::path_root));
        rest = r.strip_prefix('/').or_else(|| r.strip_prefix('.')).unwrap_or(r);
    }
    while let Some(r) = rest.strip_prefix("../") {
        segs.push(PathSeg::Ruled(Rule::path_up));
        rest = r;
    }
    while !rest.is_empty() {
        let (name, r) = if let Some(inner) = rest.strip_prefix('[') {
            let end = inner.find(']').unwrap();
            (Some(&inner[..end]), &inner[end + 1..])
        } else {
            let end = rest.find(|c| c == '/' || c == '.' || c == '[').unwrap_or(rest.len());
            let name = &rest[..end];
            (if name == "this" { None } else { Some(name) }, &rest[end..])
        };
        if let Some(name) = name {
            segs.push(PathSeg::Named(name.to_string()));
        }
        rest = r.strip_prefix('/').or_else(|| r.strip_prefix('.')).unwrap_or(r);
    }
    segs
}

/// How a value is written into a template.
fn render_json(j: &Json) -> String {
    match j {
        Json::Null => String::new(),
        Json::Bool(b) => b.to_string(),
        Json::Number(Number::PosInt(u)) => u.to_string(),
        Json::Number(Number::NegInt(i)) => i.to_string(),
        Json::Number(Number::Float(t)) => t.clone(),
        Json::String(s) => s.clone(),
        Json::Array(a) => {
            let mut buf = String::from("[");
            for i in a {
                buf.push_str(&render_json(i));
                buf.push_str(", ");
            }
            buf.push(']');
            buf
        }
        Json::Object(_) => "[object]".to_owned(),
    }
}

fn render(s: &ScopedJson) -> String {
    match s {
        ScopedJson::Context(v, _) => render_json(v),
        ScopedJson::Derived(v) => render_json(v),
        ScopedJson::Missing => String::new(),
    }
}

fn text(s: &str) -> Json {
    Json::String(s.to_string())
}

fn num(u: u64) -> Json {
    Json::Number(Number::PosInt(u))
}

fn object(entries: Vec<(&str, Json)>) -> Json {
    let mut m = StrMap::new();
    for (k, v) in entries {
        m.insert(k.to_string(), v);
    }
    Json::Object(m)
}

fn navigate_from_root<'rc>(ctx: &'rc Context, path: &str) -> Result<ScopedJson<'rc>, RenderError> {
    let relative_path = parse_path(path);
    ctx.navigate(&relative_path, &VecDeque::new())
}

fn person() -> Json {
    object(vec![
        ("name", text("Ning Sun")),
        ("age", num(27)),
        (
            "addr",
            object(vec![("city", text("Beijing")), ("country", text("China"))]),
        ),
        (
            "titles",
            Json::Array(vec![text("programmer"), text("cartographer")]),
        ),
    ])
}

#[test]
fn test_render() {
    let v = "hello";
    let ctx = Context::wraps(text(v)).unwrap();
    assert_eq!(
        render(&navigate_from_root(&ctx, "this").unwrap()),
        v.to_string()
    );
}

#[test]
fn test_navigation() {
    let ctx = Context::wraps(person()).unwrap();
    assert_eq!(
        render(&navigate_from_root(&ctx, "./addr/country").unwrap()),
        "China".to_string()
    );
    assert_eq!(
        render(&navigate_from_root(&ctx, "addr.[country]").unwrap()),
        "China".to_string()
    );

    let v = true;
    let ctx2 = Context::wraps(Json::Bool(v)).unwrap();
    assert_eq!(
        render(&navigate_from_root(&ctx2, "this").unwrap()),
        "true".to_string()
    );

    assert_eq!(
        render(&navigate_from_root(&ctx, "titles.[0]").unwrap()),
        "programmer".to_string()
    );

    assert_eq!(
        render(&navigate_from_root(&ctx, "age").unwrap()),
        "27".to_string()
    );
}

#[test]
fn test_this() {
    let map_with_this = object(vec![("this", text("hello")), ("age", num(5))]);
    let ctx1 = Context::wraps(map_with_this).unwrap();

    let map_without_this = object(vec![("age", num(4))]);
    let ctx2 = Context::wraps(map_without_this).unwrap();

    assert_eq!(
        render(&navigate_from_root(&ctx1, "this").unwrap()),
        "[object]".to_owned()
    );
    assert_eq!(
        render(&navigate_from_root(&ctx2, "age").unwrap()),
        "4".to_owned()
    );
}

#[test]
fn test_merge_json() {
    let map = object(vec![("age", num(4))]);
    let s = "hello".to_owned();
    let mut hash = StrMap::new();
    hash.insert("tag".to_string(), text("h1"));

    let ctx_a1 = Context::wraps(context::merge_json(&map, &hash)).unwrap();
    assert_eq!(
        render(&navigate_from_root(&ctx_a1, "age").unwrap()),
        "4".to_owned()
    );
    assert_eq!(
        render(&navigate_from_root(&ctx_a1, "tag").unwrap()),
        "h1".to_owned()
    );

    let ctx_a2 = Context::wraps(context::merge_json(&Json::String(s), &hash)).unwrap();
    assert_eq!(
        render(&navigate_from_root(&ctx_a2, "this").unwrap()),
        "[object]".to_owned()
    );
    assert_eq!(
        render(&navigate_from_root(&ctx_a2, "tag").unwrap()),
        "h1".to_owned()
    );
}

#[test]
fn test_key_name_with_this() {
    let m = object(vec![("this_name", text("the_value"))]);
    let ctx = Context::wraps(m).unwrap();
    assert_eq!(
        render(&navigate_from_root(&ctx, "this_name").unwrap()),
        "the_value".to_string()
    );
}

#[test]
fn test_root() {
    let m = object(vec![
        (
            "a",
            object(vec![(
                "b",
                object(vec![("c", object(vec![("d", num(1))]))]),
            )]),
        ),
        ("b", num(2)),
    ]);
    let ctx = Context::wraps(m).unwrap();
    let mut block = BlockContext::new();
    *block.base_path_mut() = ["a".to_owned(), "b".to_owned()].to_vec();

    let mut blocks = VecDeque::new();
    blocks.push_front(block);

    assert_eq!(
        render(
            &ctx.navigate(&parse_path("@root/b"), &blocks)
                .unwrap()
        ),
        "2".to_string()
    );
}

#[test]
fn test_block_params() {
    let m = Json::Array(vec![
        object(vec![("a", Json::Array(vec![num(1), num(2)]))]),
        object(vec![("b", Json::Array(vec![num(2), num(3)]))]),
    ]);

    let ctx = Context::wraps(m).unwrap();
    let mut block_params = BlockParams::new();
    block_params
        .add_path("z", ["0".to_owned(), "a".to_owned()].to_vec())
        .unwrap();
    block_params.add_value("t", text("good")).unwrap();

    let mut block = BlockContext::new();
    block.set_block_params(block_params);

    let mut blocks = VecDeque::new();
    blocks.push_front(block);

    assert_eq!(
        render(&ctx.navigate(&parse_path("z.[1]"), &blocks).unwrap()),
        "2".to_string()
    );
    assert_eq!(
        render(&ctx.navigate(&parse_path("t"), &blocks).unwrap()),
        "good".to_string()
    );
}
