use handlebars_context::block::{BlockContext, BlockParamHolder, BlockParams};
use handlebars_context::context::{self, Context};
use handlebars_context::index::parse_index;
use handlebars_context::error::{IndexErrorKind, RenderError};
use handlebars_context::json::{Json, Number, ScopedJson, StrMap};
use handlebars_context::path::{merge_json_path, PathSeg, Rule};
use std::collections::VecDeque;

/// Splits a template path into its segments: an optional `this/`, `this.`
/// or `./` at the start, then `@root`, then any number of `../`, then keys
/// separated by `/` or `.`, where `[...]` holds a key verbatim.
fn parse_path(raw: &str) -> Vec<PathSeg> {
    let mut segs = Vec::new();
    let mut rest = raw;
    for prefix in ["this/", "this.", "./"] {
        if let Some(r) = rest.strip_prefix(prefix) {
            rest = r;
            break;
        }
    }
    if let Some(r) = rest.strip_prefix("@root") {
        segs.push(PathSeg::Ruled(Rule::path_root));
        rest = r.strip_prefix('/').or_else(|| r.strip_prefix('.')).unwrap_or(r);
    }
    while let Some(r) = rest.strip_prefix("../") {
        segs.push(PathSeg::Ruled(Rule::path_up));
        rest = r;
    }
    while !rest.is_empty() {
        let (name, r) = if let Some(inner) = rest.strip_prefix('[') {
            let end = inner.find(']').unwrap();
            (Some(&inner[..end]), &inner[end + 1..])
        } else {
            let end = rest.find(|c| c == '/' || c == '.' || c == '[').unwrap_or(rest.len());
            let name = &rest[..end];
            (if name == "this" { None } else { Some(name) }, &rest[end..])
        };
        if let Some(name) = name {
            segs.push(PathSeg::Named(name.to_string()));
        }
        rest = r.strip_prefix('/').or_else(|| r.strip_prefix('.')).unwrap_or(r);
    }
    segs
}

/// How a value is written into a template.
fn render_json(j: &Json) -> String {
    match j {
        Json::Null => String::new(),
        Json::Bool(b) => b.to_string(),
        Json::Number(Number::PosInt(u)) => u.to_string(),
        Json::Number(Number::NegInt(i)) => i.to_string(),
        Json::Number(Number::Float(t)) => t.clone(),
        Json::String(s) => s.clone(),
        Json::Array(a) => {
            let mut buf = String::from("[");
            for i in a {
                buf.push_str(&render_json(i));
                buf.push_str(", ");
            }
            buf.push(']');
            buf
        }
        Json::Object(_) => "[object]".to_owned(),
    }
}

fn render(s: &ScopedJson) -> String {
    match s {
        ScopedJson::Context(v, _) => render_json(v),
        ScopedJson::Derived(v) => render_json(v),
        ScopedJson::Missing => String::new(),
    }
}

fn text(s: &str) -> Json {
    Json::String(s.to_string())
}

fn num(u: u64) -> Json {
    Json::Number(Number::PosInt(u))
}

fn object(entries: Vec<(&str, Json)>) -> Json {
    let mut m = StrMap::new();
    for (k, v) in entries {
        m.insert(k.to_string(), v);
    }
    Json::Object(m)
}

fn navigate_from_root<'rc>(ctx: &'rc Context, path: &str) -> Result<ScopedJson<'rc>, RenderError> {
    let relative_path = parse_path(path);
    ctx.navigate(&relative_path, &VecDeque::new())
}

fn person() -> Json {
    object(vec![
        ("name", text("Ning Sun")),
        ("age", num(27)),
        (
            "addr",
            object(vec![("city", text("Beijing")), ("country", text("China"))]),
        ),
        (
            "titles",
            Json::Array(vec![text("programmer"), text("cartographer")]),
        ),
    ])
}


fn block_with_base(base: &[&str]) -> BlockContext {
    let mut block = BlockContext::new();
    *block.base_path_mut() = base.iter().map(|s| s.to_string()).collect();
    block
}

#[test]
fn array_index_segments() {
    let ctx = Context::wraps(person()).unwrap();
    assert_eq!(
        render(&navigate_from_root(&ctx, "titles.[1]").unwrap()),
        "cartographer"
    );
    assert_eq!(
        render(&navigate_from_root(&ctx, "titles.[+1]").unwrap()),
        "cartographer"
    );
    assert_eq!(
        render(&navigate_from_root(&ctx, "titles.[001]").unwrap()),
        "cartographer"
    );
    assert!(matches!(
        navigate_from_root(&ctx, "titles.[2]").unwrap(),
        ScopedJson::Missing
    ));
}

#[test]
fn array_index_errors() {
    let ctx = Context::wraps(person()).unwrap();
    assert_eq!(
        navigate_from_root(&ctx, "titles.[x]").unwrap_err(),
        RenderError::InvalidArrayIndex {
            segment: "x".to_string(),
            kind: IndexErrorKind::InvalidDigit
        }
    );
    assert_eq!(
        navigate_from_root(&ctx, "titles.[-1]").unwrap_err(),
        RenderError::InvalidArrayIndex {
            segment: "-1".to_string(),
            kind: IndexErrorKind::InvalidDigit
        }
    );
    assert_eq!(
        navigate_from_root(&ctx, "titles.[]").unwrap_err(),
        RenderError::InvalidArrayIndex {
            segment: "".to_string(),
            kind: IndexErrorKind::Empty
        }
    );
    let err = navigate_from_root(&ctx, "titles.[99999999999999999999999]").unwrap_err();
    assert_eq!(
        err,
        RenderError::InvalidArrayIndex {
            segment: "99999999999999999999999".to_string(),
            kind: IndexErrorKind::PosOverflow
        }
    );
    assert_eq!(err.desc(), "number too large to fit in target type");
    // once nothing is found, later segments are not read as indexes
    assert!(matches!(
        navigate_from_root(&ctx, "nothing.[x]").unwrap(),
        ScopedJson::Missing
    ));
}

#[test]
fn parse_index_texts() {
    assert_eq!(parse_index("0"), Ok(0));
    assert_eq!(parse_index("42"), Ok(42));
    assert_eq!(parse_index("+7"), Ok(7));
    assert_eq!(parse_index(""), Err(IndexErrorKind::Empty));
    assert_eq!(parse_index("+"), Err(IndexErrorKind::InvalidDigit));
    assert_eq!(parse_index("-"), Err(IndexErrorKind::InvalidDigit));
    assert_eq!(parse_index("1a"), Err(IndexErrorKind::InvalidDigit));
    assert_eq!(parse_index(" 1"), Err(IndexErrorKind::InvalidDigit));
    assert_eq!(parse_index("é"), Err(IndexErrorKind::InvalidDigit));
    assert_eq!(
        parse_index(&usize::MAX.to_string()),
        Ok(usize::MAX)
    );
    let past = format!("{}0", usize::MAX);
    assert_eq!(parse_index(&past), Err(IndexErrorKind::PosOverflow));
    let past_then_letter = format!("{}0x", usize::MAX);
    assert_eq!(parse_index(&past_then_letter), Err(IndexErrorKind::PosOverflow));
    for text in ["0", "12", "+3", "", "+", "x", "4x"] {
        assert_eq!(parse_index(text).ok(), text.parse::<usize>().ok());
    }
}

#[test]
fn missing_values() {
    let ctx = Context::wraps(person()).unwrap();
    assert!(matches!(
        navigate_from_root(&ctx, "nope").unwrap(),
        ScopedJson::Missing
    ));
    assert!(matches!(
        navigate_from_root(&ctx, "name.first").unwrap(),
        ScopedJson::Missing
    ));
    assert!(matches!(
        navigate_from_root(&ctx, "age.[0]").unwrap(),
        ScopedJson::Missing
    ));
}

#[test]
fn found_value_carries_its_path() {
    let ctx = Context::wraps(person()).unwrap();
    match navigate_from_root(&ctx, "addr/city").unwrap() {
        ScopedJson::Context(v, p) => {
            assert_eq!(*v, text("Beijing"));
            assert_eq!(p, vec!["addr".to_string(), "city".to_string()]);
        }
        other => panic!("unexpected {:?}", other),
    }
}

#[test]
fn paths_from_blocks() {
    let ctx = Context::wraps(person()).unwrap();
    let mut blocks = VecDeque::new();
    blocks.push_front(block_with_base(&[]));
    blocks.push_front(block_with_base(&["addr"]));

    // a plain path starts at the innermost block's base path
    assert_eq!(
        render(&ctx.navigate(&parse_path("city"), &blocks).unwrap()),
        "Beijing"
    );
    // `..` starts at the next block out
    assert_eq!(
        render(&ctx.navigate(&parse_path("../name"), &blocks).unwrap()),
        "Ning Sun"
    );
    // with more `..` than blocks, the innermost block's base path is used
    assert!(matches!(
        ctx.navigate(&parse_path("../../name"), &blocks).unwrap(),
        ScopedJson::Missing
    ));
    assert_eq!(
        render(&ctx.navigate(&parse_path("../../city"), &blocks).unwrap()),
        "Beijing"
    );
    // `@root` starts at the top
    assert_eq!(
        render(&ctx.navigate(&parse_path("@root/name"), &blocks).unwrap()),
        "Ning Sun"
    );
    // no segment at all leads to the innermost base path
    match ctx.navigate(&[], &blocks).unwrap() {
        ScopedJson::Context(_, p) => assert_eq!(p, vec!["addr".to_string()]),
        other => panic!("unexpected {:?}", other),
    }
}

#[test]
fn empty_path_finds_data() {
    let ctx = Context::wraps(person()).unwrap();
    match ctx.navigate(&[], &VecDeque::new()).unwrap() {
        ScopedJson::Context(v, p) => {
            assert_eq!(*v, person());
            assert!(p.is_empty());
        }
        other => panic!("unexpected {:?}", other),
    }
}

#[test]
fn block_params_take_precedence() {
    let ctx = Context::wraps(object(vec![("t", text("data")), ("u", text("data u"))])).unwrap();
    let mut inner = BlockParams::new();
    inner.add_value("t", object(vec![("k", text("inner"))])).unwrap();
    let mut outer = BlockParams::new();
    outer.add_value("t", text("outer")).unwrap();
    outer.add_path("u", vec!["t".to_string()]).unwrap();
    let mut inner_block = BlockContext::new();
    inner_block.set_block_params(inner);
    let mut outer_block = BlockContext::new();
    outer_block.set_block_params(outer);
    let mut blocks = VecDeque::new();
    blocks.push_front(outer_block);
    blocks.push_front(inner_block);

    match ctx.navigate(&parse_path("t.k"), &blocks).unwrap() {
        ScopedJson::Derived(v) => assert_eq!(v, text("inner")),
        other => panic!("unexpected {:?}", other),
    }
    assert_eq!(
        render(&ctx.navigate(&parse_path("u"), &blocks).unwrap()),
        "data"
    );
    assert_eq!(
        render(&ctx.navigate(&parse_path("@root/u"), &blocks).unwrap()),
        "data u"
    );
    match context::get_in_block_params(&blocks, "t") {
        Some(BlockParamHolder::Value(v)) => assert_eq!(*v, object(vec![("k", text("inner"))])),
        other => panic!("unexpected {:?}", other),
    }
    match context::get_in_block_params(&blocks, "u") {
        Some(BlockParamHolder::Path(p)) => assert_eq!(*p, vec!["t".to_string()]),
        other => panic!("unexpected {:?}", other),
    }
    assert!(context::get_in_block_params(&blocks, "v").is_none());
}

#[test]
fn merge_overrides_and_keeps() {
    let base = object(vec![("a", num(1)), ("b", num(2))]);
    let mut addition = StrMap::new();
    addition.insert("b".to_string(), num(3));
    addition.insert("c".to_string(), num(4));
    let merged = context::merge_json(&base, &addition);
    let ctx = Context::wraps(merged).unwrap();
    assert_eq!(render(&navigate_from_root(&ctx, "a").unwrap()), "1");
    assert_eq!(render(&navigate_from_root(&ctx, "b").unwrap()), "3");
    assert_eq!(render(&navigate_from_root(&ctx, "c").unwrap()), "4");

    let merged = context::merge_json(&Json::Null, &StrMap::new());
    assert_eq!(merged, object(vec![]));
}

#[test]
fn join_segments() {
    let mut segs: VecDeque<&str> = VecDeque::new();
    assert_eq!(context::join(&segs, "/"), "");
    segs.push_back("a");
    assert_eq!(context::join(&segs, "/"), "a");
    segs.push_back("b");
    segs.push_back("c");
    assert_eq!(context::join(&segs, "/"), "a/b/c");
    assert_eq!(context::join(&segs, ", "), "a, b, c");
}

#[test]
fn null_and_data_mut() {
    let mut ctx = Context::null();
    assert_eq!(*ctx.data(), Json::Null);
    *ctx.data_mut() = text("changed");
    assert_eq!(*ctx.data(), text("changed"));
    assert_eq!(render(&navigate_from_root(&ctx, "this").unwrap()), "changed");
}

#[test]
fn deep_copy_is_equal() {
    let p = person();
    assert_eq!(p.deep_copy(), p);
    let mut copied = p.deep_copy();
    if let Json::Object(m) = &mut copied {
        m.insert("age".to_string(), num(28));
    }
    assert_ne!(copied, p);
}

#[test]
fn str_map_insert_and_get() {
    let mut m = StrMap::new();
    assert!(m.get("k").is_none());
    m.insert("k".to_string(), 1u32);
    m.insert("j".to_string(), 2u32);
    m.insert("k".to_string(), 3u32);
    assert_eq!(m.get("k"), Some(&3));
    assert_eq!(m.get("j"), Some(&2));
    assert_eq!(m.entries().len(), 2);
}

#[test]
fn merge_path_names() {
    let mut stack = vec!["base".to_string()];
    let segs = vec![
        PathSeg::Ruled(Rule::path_up),
        PathSeg::Named("a".to_string()),
        PathSeg::Ruled(Rule::path_root),
        PathSeg::Named("b".to_string()),
    ];
    merge_json_path(&mut stack, &segs);
    assert_eq!(stack, vec!["base".to_string(), "a".to_string(), "b".to_string()]);
}

#[test]
fn error_descriptions() {
    let e = RenderError::InvalidArrayIndex {
        segment: "x".to_string(),
        kind: IndexErrorKind::InvalidDigit,
    };
    assert_eq!(e.desc(), "invalid digit found in string");
    assert_eq!(IndexErrorKind::Empty.message(), "cannot parse integer from empty string");
    let s = RenderError::Serialization {
        message: "test".to_string(),
    };
    assert_eq!(s.desc(), "Failed to access JSON data.");
}

#[test]
fn longer_path_is_prefix_then_rest() {
    let ctx = Context::wraps(person()).unwrap();
    let addr = match navigate_from_root(&ctx, "addr").unwrap() {
        ScopedJson::Context(v, _) => v.deep_copy(),
        other => panic!("unexpected {:?}", other),
    };
    let inner = Context::wraps(addr).unwrap();
    assert_eq!(
        render(&navigate_from_root(&inner, "city").unwrap()),
        render(&navigate_from_root(&ctx, "addr.city").unwrap())
    );
}

#[test]
fn block_param_after_up_segment() {
    // the segment after `..` names a parameter bound to a value; the path
    // then leads from that value through all named segments, the
    // parameter's own name included
    let ctx = Context::wraps(Json::Null).unwrap();
    let mut params = BlockParams::new();
    params.add_value("t", object(vec![("t", text("inside"))])).unwrap();
    let mut block = BlockContext::new();
    block.set_block_params(params);
    let mut blocks = VecDeque::new();
    blocks.push_front(block);
    assert_eq!(
        render(&ctx.navigate(&parse_path("../t"), &blocks).unwrap()),
        "inside"
    );
}

#[test]
fn dot_base_path_is_top_level() {
    let ctx = Context::wraps(object(vec![("a", num(1))])).unwrap();
    let mut blocks = VecDeque::new();
    blocks.push_front(block_with_base(&["."]));
    assert_eq!(
        render(&ctx.navigate(&parse_path("a"), &blocks).unwrap()),
        "1"
    );
    assert_eq!(
        render(&ctx.navigate(&parse_path("a"), &VecDeque::new()).unwrap()),
        "1"
    );
    match ctx.navigate(&[], &blocks).unwrap() {
        ScopedJson::Context(v, p) => {
            assert_eq!(*v, object(vec![("a", num(1))]));
            assert!(p.is_empty());
        }
        other => panic!("unexpected {:?}", other),
    }
    // `..` into a block whose base path is "." leads from the top as well
    let mut nested = VecDeque::new();
    nested.push_front(block_with_base(&["."]));
    nested.push_front(block_with_base(&["b"]));
    assert_eq!(
        render(&ctx.navigate(&parse_path("../a"), &nested).unwrap()),
        "1"
    );
}

#[test]
fn split_undoes_join() {
    let mut segs: VecDeque<&str> = VecDeque::new();
    segs.push_back("");
    let joined = context::join(&segs, "/");
    assert_eq!(joined.split('/').collect::<Vec<&str>>(), vec![""]);
    segs.push_back("ab");
    segs.push_back("");
    segs.push_back("c");
    let joined = context::join(&segs, "/");
    assert_eq!(joined, "/ab//c");
    assert_eq!(
        joined.split('/').collect::<Vec<&str>>(),
        segs.iter().copied().collect::<Vec<&str>>()
    );
}

#[test]
fn clones_are_equal() {
    let ctx = Context::wraps(person()).unwrap();
    let copy = ctx.clone();
    assert_eq!(*copy.data(), *ctx.data());
    assert_eq!(person().clone(), person());
}

#[test]
fn objects_equal_whatever_the_insertion_order() {
    let a = object(vec![("b", num(2)), ("a", num(1)), ("c", num(3))]);
    let b = object(vec![("c", num(3)), ("a", num(1)), ("b", num(2))]);
    assert_eq!(a, b);
    let mut addition = StrMap::new();
    addition.insert("c".to_string(), num(3));
    addition.insert("a".to_string(), num(1));
    let merged = context::merge_json(&object(vec![("b", num(2))]), &addition);
    assert_eq!(merged, a);
    if let Json::Object(m) = &merged {
        let keys: Vec<&str> = m.entries().iter().map(|(k, _)| k.as_str()).collect();
        assert_eq!(keys, vec!["a", "b", "c"]);
    } else {
        panic!("not an object");
    }
}

#[test]
fn entries_in_string_order() {
    let mut m = StrMap::new();
    for k in ["é", "b", "", "ab", "a", "B", "aa"] {
        m.insert(k.to_string(), 0u8);
    }
    let keys: Vec<&str> = m.entries().iter().map(|(k, _)| k.as_str()).collect();
    let mut sorted = keys.clone();
    sorted.sort();
    assert_eq!(keys, sorted);
    assert_eq!(keys, vec!["", "B", "a", "aa", "ab", "b", "é"]);
}
