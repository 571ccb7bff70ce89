use vstd::prelude::*;
use crate::error::{IndexErrorKind, RenderError};
use crate::index::{parse_index, spec_parse_index};
use std::collections::VecDeque;
use crate::block::{BlockContext, BlockParamHolder};
use crate::json::{entries_map, keys_increasing, object_map_view, values_view, Json, JsonValue, ScopedJson, StrMap};
use crate::path::{merge_json_path, seg_names, strings_view, PathSeg, Rule};

verus! {

/// Where a path leads, before it is followed through any data.
pub enum Resolution {
    /// The path of names from the top of the context data.
    Absolute(Seq<Seq<char>>),
    /// The path of names from the value of the innermost block.
    Relative(Seq<Seq<char>>),
    /// The path of names from the value of a block parameter.
    BlockValue(Seq<Seq<char>>, Json),
}

/// Where a path leads, as worked out by `parse_json_visitor`.
enum ResolvedPath<'a> {
    AbsolutePath(Vec<String>),
    RelativePath(Vec<String>),
    BlockParamValue(Vec<String>, &'a Json),
}

spec fn resolved_view(r: ResolvedPath) -> Resolution {
    match r {
        ResolvedPath::AbsolutePath(p) => Resolution::Absolute(strings_view(p@)),
        ResolvedPath::RelativePath(p) => Resolution::Relative(strings_view(p@)),
        ResolvedPath::BlockParamValue(p, v) => Resolution::BlockValue(strings_view(p@), *v),
    }
}

/// The number of `..` segments the path starts with.
pub open spec fn up_count(segs: Seq<PathSeg>) -> nat
    decreases segs.len(),
{
    if segs.len() > 0 && segs[0] matches PathSeg::Ruled(Rule::path_up) {
        1 + up_count(segs.drop_first())
    } else {
        0
    }
}

pub(crate) proof fn lemma_up_count(segs: Seq<PathSeg>, i: int)
    requires
        0 <= i <= segs.len(),
        forall|j: int| 0 <= j < i ==> (#[trigger] segs[j]) matches PathSeg::Ruled(Rule::path_up),
        i < segs.len() ==> !(segs[i] matches PathSeg::Ruled(Rule::path_up)),
    ensures
        up_count(segs) == i,
    decreases i,
{
    if i > 0 {
        lemma_up_count(segs.drop_first(), i - 1);
    }
}

/// What the innermost block that binds the parameter `name` binds it to.
pub open spec fn block_param_lookup(blocks: Seq<BlockContext>, name: Seq<char>) -> Option<
    BlockParamHolder,
>
    decreases blocks.len(),
{
    if blocks.len() == 0 {
        None
    } else {
        match blocks[0].spec_block_param(name) {
            Some(h) => Some(h),
            None => block_param_lookup(blocks.drop_first(), name),
        }
    }
}

/// Whether a base path is the single segment `"."`, which stands for the
/// top of the data.
pub open spec fn is_top_marker(p: Seq<Seq<char>>) -> bool {
    p == seq!["."@]
}

/// The base path of a block, as names from the top of the data: a base
/// path of `"."` is the top itself.
pub open spec fn base_names(b: BlockContext) -> Seq<Seq<char>> {
    if is_top_marker(strings_view(b.spec_base_path()@)) {
        Seq::empty()
    } else {
        strings_view(b.spec_base_path()@)
    }
}

/// The base path of the innermost block, if there is one.
pub open spec fn front_base(blocks: Seq<BlockContext>) -> Seq<Seq<char>> {
    if blocks.len() > 0 {
        base_names(blocks[0])
    } else {
        Seq::empty()
    }
}

/// The base path that a path starting with `depth` times `..` starts
/// from: that of the block at position `depth` from the innermost, or that
/// of the innermost block where there are not so many.
pub open spec fn depth_base(blocks: Seq<BlockContext>, depth: nat) -> Seq<Seq<char>> {
    if depth < blocks.len() {
        base_names(blocks[depth as int])
    } else {
        front_base(blocks)
    }
}

/// The block parameter that the path starts with, if its first segment
/// after any `..` names one.
pub open spec fn leading_block_param(segs: Seq<PathSeg>, blocks: Seq<BlockContext>) -> Option<
    BlockParamHolder,
> {
    let k = up_count(segs);
    if k < segs.len() {
        match segs[k as int] {
            PathSeg::Named(n) => block_param_lookup(blocks, n@),
            PathSeg::Ruled(_) => None,
        }
    } else {
        None
    }
}

/// Where the path `segs` leads among the blocks `blocks` (innermost first).
pub open spec fn resolve(segs: Seq<PathSeg>, blocks: Seq<BlockContext>, always_absolute: bool) -> Resolution {
    let k = up_count(segs);
    match leading_block_param(segs, blocks) {
        Some(BlockParamHolder::Value(v)) => Resolution::BlockValue(seg_names(segs.drop_first()), v),
        Some(BlockParamHolder::Path(p)) => Resolution::Absolute(
            strings_view(p@) + seg_names(segs.drop_first()),
        ),
        None => if k > 0 {
            Resolution::Absolute(depth_base(blocks, k) + seg_names(segs))
        } else if segs.len() > 0 && segs[0] matches PathSeg::Ruled(Rule::path_root) {
            Resolution::Absolute(seg_names(segs))
        } else if always_absolute {
            Resolution::Absolute(front_base(blocks) + seg_names(segs))
        } else {
            Resolution::Relative(seg_names(segs))
        },
    }
}

/// What the innermost block that binds the parameter `p` binds it to.
pub fn get_in_block_params<'a>(block_contexts: &'a VecDeque<BlockContext>, p: &str) -> (r: Option<
    &'a BlockParamHolder,
>)
    ensures
        r matches Some(h) ==> block_param_lookup(block_contexts@, p@) == Some(*h),
        r is None ==> block_param_lookup(block_contexts@, p@) is None,
{
    let mut i: usize = 0;
    assert(block_contexts@.skip(0) =~= block_contexts@);
    while i < block_contexts.len()
        invariant
            i <= block_contexts@.len(),
            block_param_lookup(block_contexts@, p@) == block_param_lookup(
                block_contexts@.skip(i as int),
                p@,
            ),
        decreases block_contexts@.len() - i,
    {
        let ghost rest = block_contexts@.skip(i as int);
        assert(rest[0] == block_contexts@[i as int]);
        assert(rest.drop_first() =~= block_contexts@.skip(i + 1));
        let v = block_contexts[i].get_block_param(p);
        if v.is_some() {
            return v;
        }
        i = i + 1;
    }
    None
}


/// Appends the strings of `paths` to `path_stack`.
fn extend_names(path_stack: &mut Vec<String>, paths: &Vec<String>)
    ensures
        strings_view(final(path_stack)@) == strings_view(old(path_stack)@) + strings_view(paths@),
{
    path_stack.extend_from_slice(paths.as_slice());
    proof {
        assert forall|i: int| 0 <= i < path_stack@.len() implies strings_view(path_stack@)[i] == (
        strings_view(old(path_stack)@) + strings_view(paths@))[i] by {
            if i >= old(path_stack)@.len() {
                let a = paths@[i - old(path_stack)@.len()];
                let b = path_stack@[i];
                assert(cloned::<String>(a, b));
                if vstd::pervasive::strictly_cloned(a, b) {
                    assert(call_ensures(String::clone, (&a,), b));
                }
            }
        }
        assert(strings_view(path_stack@) =~= strings_view(old(path_stack)@) + strings_view(paths@));
    }
}

/// Appends the names of a block's base path to `path_stack`; a base path
/// of `"."` stands for the top and adds nothing.
fn extend_base(path_stack: &mut Vec<String>, base: &Vec<String>)
    ensures
        strings_view(final(path_stack)@) == strings_view(old(path_stack)@) + (if is_top_marker(
            strings_view(base@),
        ) {
            Seq::empty()
        } else {
            strings_view(base@)
        }),
{
    let dot = ".".to_string();
    if base.len() == 1 && base[0] == dot {
        assert(strings_view(base@) =~= seq!["."@]);
        assert(strings_view(path_stack@) =~= strings_view(old(path_stack)@) + Seq::empty());
    } else {
        proof {
            if is_top_marker(strings_view(base@)) {
                assert(strings_view(base@).len() == base@.len());
                assert(strings_view(base@)[0] == base@[0]@);
                assert(seq!["."@][0] == "."@);
            }
        }
        extend_names(path_stack, base);
    }
}

/// Works out where `relative_path` leads among `block_contexts` (innermost
/// first). A path starting with a block parameter leads from what the
/// parameter is bound to; one starting with `..` from the base path of an
/// outer block; one starting with `@root` from the top; any other one from
/// the base path of the innermost block where `always_for_absolute_path`
/// holds, and from the innermost block's value where it does not.
#[verifier::loop_isolation(false)]
fn parse_json_visitor<'a>(
    relative_path: &[PathSeg],
    block_contexts: &'a VecDeque<BlockContext>,
    always_for_absolute_path: bool,
) -> (r: Result<ResolvedPath<'a>, RenderError>)
    ensures
        r matches Ok(rp) && resolved_view(rp) == resolve(
            relative_path@,
            block_contexts@,
            always_for_absolute_path,
        ),
{
    let ghost segs = relative_path@;
    let ghost blocks = block_contexts@;
    let mut path_context_depth: usize = 0;
    let mut with_block_param: Option<&'a BlockParamHolder> = None;
    let mut from_root = false;

    // peek relative_path for block param, @root and "../../"
    let mut i: usize = 0;
    while i < relative_path.len()
        invariant
            i <= segs.len(),
            path_context_depth == i,
            forall|j: int| 0 <= j < i ==> (#[trigger] segs[j]) matches PathSeg::Ruled(Rule::path_up),
            with_block_param is None,
            !from_root,
        decreases segs.len() - i,
    {
        match &relative_path[i] {
            PathSeg::Named(the_path) => {
                proof {
                    lemma_up_count(segs, i as int);
                }
                if let Some(holder) = get_in_block_params(block_contexts, the_path.as_str()) {
                    with_block_param = Some(holder);
                }
                break;
            },
            PathSeg::Ruled(Rule::path_root) => {
                proof {
                    lemma_up_count(segs, i as int);
                }
                from_root = true;
                break;
            },
            PathSeg::Ruled(Rule::path_up) => {
                path_context_depth = path_context_depth + 1;
            },
        }
        i = i + 1;
    }
    proof {
        if i == segs.len() {
            lemma_up_count(segs, i as int);
        }
    }
    assert(up_count(segs) == path_context_depth);
    assert(with_block_param matches Some(h) ==> leading_block_param(segs, blocks) == Some(*h));
    assert(with_block_param is None ==> leading_block_param(segs, blocks) is None);
    assert(from_root == (path_context_depth < segs.len()
        && segs[path_context_depth as int] matches PathSeg::Ruled(Rule::path_root)));

    let mut path_stack: Vec<String> = Vec::with_capacity(relative_path.len());
    match with_block_param {
        Some(BlockParamHolder::Value(value)) => {
            merge_json_path(&mut path_stack, &relative_path[1..relative_path.len()]);
            assert(segs.subrange(1, segs.len() as int) =~= segs.drop_first());
            Ok(ResolvedPath::BlockParamValue(path_stack, value))
        },
        Some(BlockParamHolder::Path(paths)) => {
            extend_names(&mut path_stack, paths);
            merge_json_path(&mut path_stack, &relative_path[1..relative_path.len()]);
            assert(segs.subrange(1, segs.len() as int) =~= segs.drop_first());
            Ok(ResolvedPath::AbsolutePath(path_stack))
        },
        None => {
            if path_context_depth > 0 {
                if path_context_depth < block_contexts.len() {
                    extend_base(&mut path_stack, block_contexts[path_context_depth].base_path());
                } else {
                    if block_contexts.len() > 0 {
                        extend_base(&mut path_stack, block_contexts[0].base_path());
                    }
                }
                merge_json_path(&mut path_stack, relative_path);
                Ok(ResolvedPath::AbsolutePath(path_stack))
            } else if from_root {
                merge_json_path(&mut path_stack, relative_path);
                Ok(ResolvedPath::AbsolutePath(path_stack))
            } else if always_for_absolute_path {
                if block_contexts.len() > 0 {
                    extend_base(&mut path_stack, block_contexts[0].base_path());
                }
                merge_json_path(&mut path_stack, relative_path);
                Ok(ResolvedPath::AbsolutePath(path_stack))
            } else {
                merge_json_path(&mut path_stack, relative_path);
                Ok(ResolvedPath::RelativePath(path_stack))
            }
        },
    }
}


/// The value an optional reference points to.
pub open spec fn deref_opt(d: Option<&Json>) -> Option<Json> {
    match d {
        Some(j) => Some(*j),
        None => None,
    }
}

/// One step down a path from `d`: the element at index `p` of an array,
/// or the value of key `p` in an object. A segment that is no valid index
/// into an array fails; nothing is found below anything else.
pub open spec fn step(d: Option<Json>, p: Seq<char>) -> Result<
    Option<Json>,
    (Seq<char>, IndexErrorKind),
> {
    match d {
        Some(Json::Array(l)) => match spec_parse_index(p) {
            Err(kind) => Err((p, kind)),
            Ok(i) => Ok(
                if i < l@.len() {
                    Some(l@[i as int])
                } else {
                    None
                },
            ),
        },
        Some(Json::Object(m)) => Ok(m.spec_map().get(p)),
        _ => Ok(None),
    }
}

/// Follows the names of `path` from `d`, one step after the other, up to
/// the first step that fails.
pub open spec fn walk(d: Option<Json>, path: Seq<Seq<char>>) -> Result<
    Option<Json>,
    (Seq<char>, IndexErrorKind),
>
    decreases path.len(),
{
    if path.len() == 0 {
        Ok(d)
    } else {
        match walk(d, path.drop_last()) {
            Err(e) => Err(e),
            Ok(x) => step(x, path.last()),
        }
    }
}

proof fn lemma_walk_err_extends(d: Option<Json>, path: Seq<Seq<char>>, n: int)
    requires
        0 <= n <= path.len(),
        walk(d, path.take(n)) is Err,
    ensures
        walk(d, path) == walk(d, path.take(n)),
    decreases path.len(),
{
    if n == path.len() {
        assert(path.take(n) =~= path);
    } else {
        assert(path.drop_last().take(n) =~= path.take(n));
        lemma_walk_err_extends(d, path.drop_last(), n);
    }
}

/// The result of one step down from `d`, in place of `d`.
fn get_data<'a>(d: Option<&'a Json>, p: &str) -> (r: Result<Option<&'a Json>, RenderError>)
    ensures
        match step(deref_opt(d), p@) {
            Ok(x) => r matches Ok(y) && deref_opt(y) == x,
            Err((seg, kind)) => r matches Err(RenderError::InvalidArrayIndex { segment, kind: k })
                && segment@ == seg && k == kind,
        },
{
    let result = match d {
        Some(Json::Array(l)) => match parse_index(p) {
            Ok(idx_u) => if idx_u < l.len() {
                Some(&l[idx_u])
            } else {
                None
            },
            Err(kind) => {
                return Err(RenderError::InvalidArrayIndex { segment: p.to_owned(), kind });
            },
        },
        Some(Json::Object(m)) => m.get(p),
        Some(_) => None,
        None => None,
    };
    Ok(result)
}

/// Follows `paths` down from `start`.
fn follow<'a>(start: &'a Json, paths: &Vec<String>) -> (r: Result<Option<&'a Json>, RenderError>)
    ensures
        match walk(Some(*start), strings_view(paths@)) {
            Ok(x) => r matches Ok(y) && deref_opt(y) == x,
            Err((seg, kind)) => r matches Err(RenderError::InvalidArrayIndex { segment, kind: k })
                && segment@ == seg && k == kind,
        },
{
    let ghost names = strings_view(paths@);
    let mut ptr: Option<&'a Json> = Some(start);
    let mut i: usize = 0;
    while i < paths.len()
        invariant
            i <= paths@.len(),
            names == strings_view(paths@),
            walk(Some(*start), names.take(i as int)) == Ok::<
                Option<Json>,
                (Seq<char>, IndexErrorKind),
            >(deref_opt(ptr)),
        decreases paths@.len() - i,
    {
        assert(names.take(i + 1).drop_last() =~= names.take(i as int));
        assert(names.take(i + 1).last() == paths@[i as int]@);
        match get_data(ptr, paths[i].as_str()) {
            Ok(next) => {
                ptr = next;
            },
            Err(e) => {
                proof {
                    lemma_walk_err_extends(Some(*start), names, i + 1);
                }
                return Err(e);
            },
        }
        i = i + 1;
    }
    assert(names.take(i as int) =~= names);
    Ok(ptr)
}

/// What navigating leads to.
pub enum Outcome {
    /// A value inside the context data, with its path from the top.
    Found(Json, Seq<Seq<char>>),
    /// A copy of a value inside a block parameter.
    Derived(JsonValue),
    /// Nothing.
    Missing,
    /// The path segment is no valid index into the array it is applied to.
    Failed(Seq<char>, IndexErrorKind),
}

/// What following `segs` among `blocks` (innermost first) through `data`
/// leads to.
pub open spec fn navigate_spec(data: Json, segs: Seq<PathSeg>, blocks: Seq<BlockContext>) -> Outcome {
    match resolve(segs, blocks, true) {
        Resolution::Absolute(names) => match walk(Some(data), names) {
            Err((s, k)) => Outcome::Failed(s, k),
            Ok(Some(v)) => Outcome::Found(v, names),
            Ok(None) => Outcome::Missing,
        },
        Resolution::BlockValue(names, v) => match walk(Some(v), names) {
            Err((s, k)) => Outcome::Failed(s, k),
            Ok(Some(x)) => Outcome::Derived(x@),
            Ok(None) => Outcome::Missing,
        },
        Resolution::Relative(_) => Outcome::Missing,
    }
}

/// An object: values by key.
pub type Object = StrMap<Json>;

/// The data that templates are rendered against.
#[derive(Debug, Clone)]
pub struct Context {
    data: Json,
}

impl Context {
    /// The data.
    pub closed spec fn spec_data(self) -> Json {
        self.data
    }

    /// Create a context with null data
    pub fn null() -> (r: Context)
        ensures
            r.spec_data() == Json::Null,
    {
        Context { data: Json::Null }
    }

    /// Create a context with given data
    pub fn wraps(e: Json) -> (r: Result<Context, RenderError>)
        ensures
            r matches Ok(c) && c.spec_data() == e,
    {
        Ok(Context { data: e })
    }

    /// Navigate the context along `relative_path` among the enclosing
    /// blocks `block_contexts`, innermost first. A plain path starts at the
    /// base path of the innermost block; to navigate from the top level,
    /// set that base path to `"."` (or leave it empty).
    pub fn navigate<'rc>(
        &'rc self,
        relative_path: &[PathSeg],
        block_contexts: &VecDeque<BlockContext>,
    ) -> (r: Result<ScopedJson<'rc>, RenderError>)
        ensures
            match navigate_spec(self.spec_data(), relative_path@, block_contexts@) {
                Outcome::Found(v, p) => r matches Ok(ScopedJson::Context(x, q)) && *x == v
                    && strings_view(q@) == p,
                Outcome::Derived(v) => r matches Ok(ScopedJson::Derived(x)) && x@ == v,
                Outcome::Missing => r matches Ok(ScopedJson::Missing),
                Outcome::Failed(seg, kind) => r matches Err(
                    RenderError::InvalidArrayIndex { segment, kind: k },
                ) && segment@ == seg && k == kind,
            },
    {
        // always use absolute at the moment until we get base_value lifetime issue fixed
        let resolved_visitor = parse_json_visitor(relative_path, block_contexts, true)?;

        match resolved_visitor {
            ResolvedPath::AbsolutePath(paths) => {
                let ptr = follow(self.data(), &paths)?;
                match ptr {
                    Some(v) => Ok(ScopedJson::Context(v, paths)),
                    None => Ok(ScopedJson::Missing),
                }
            },
            ResolvedPath::RelativePath(_paths) => {
                // relative path is disabled for now
                unreached()
            },
            ResolvedPath::BlockParamValue(paths, value) => {
                let ptr = follow(value, &paths)?;
                match ptr {
                    Some(v) => Ok(ScopedJson::Derived(v.deep_copy())),
                    None => Ok(ScopedJson::Missing),
                }
            },
        }
    }

    pub fn data(&self) -> (r: &Json)
        ensures
            *r == self.spec_data(),
    {
        &self.data
    }

    pub fn data_mut(&mut self) -> (r: &mut Json)
        ensures
            *r == old(self).spec_data(),
            final(self).spec_data() == *final(r),
    {
        &mut self.data
    }
}


/// The map of an object, or no entries for any other value.
pub open spec fn object_or_empty(v: JsonValue) -> Map<Seq<char>, JsonValue> {
    match v {
        JsonValue::Object(m) => m,
        _ => Map::empty(),
    }
}

/// An object with the entries of `base`, if it is an object, and those of
/// `addition`, which take the place of any entry of `base` with the same key.
pub fn merge_json(base: &Json, addition: &StrMap<Json>) -> (r: Json)
    ensures
        r@ == JsonValue::Object(object_or_empty(base@).union_prefer_right(values_view(addition.spec_map()))),
        r matches Json::Object(m) && keys_increasing(m.spec_entries()),
        !(base@ is Object) ==> r@ == JsonValue::Object(values_view(addition.spec_map())),
        base@ matches JsonValue::Object(bm) ==> r@ == JsonValue::Object(
            bm.union_prefer_right(values_view(addition.spec_map())),
        ),
{
    broadcast use crate::json::lemma_json_view;

    let copy = base.deep_copy();
    let mut base_map = match copy {
        Json::Object(m) => m,
        _ => StrMap::new(),
    };
    let ghost start = object_or_empty(base@);
    assert(values_view(base_map.spec_map()) =~= start);

    let entries = addition.entries();
    let ghost s = entries@;
    let mut i: usize = 0;
    while i < entries.len()
        invariant
            i <= s.len(),
            s == addition.spec_entries(),
            entries@ == s,
            values_view(base_map.spec_map()) == start.union_prefer_right(
                values_view(entries_map(s.take(i as int))),
            ),
        decreases s.len() - i,
    {
        assert(s.take(i + 1).drop_last() =~= s.take(i as int));
        let k = entries[i].0.clone();
        let v = entries[i].1.deep_copy();
        let ghost before = base_map.spec_map();
        let ghost prefix = entries_map(s.take(i as int));
        assert(s.take(i + 1).last() == s[i as int]);
        assert(entries_map(s.take(i + 1)) == prefix.insert(s[i as int].0@, s[i as int].1));
        base_map.insert(k, v);
        assert(values_view(base_map.spec_map()) =~= values_view(before).insert(k@, v@));
        assert(values_view(entries_map(s.take(i + 1))) =~= values_view(prefix).insert(k@, v@));
        assert(values_view(base_map.spec_map()) =~= start.union_prefer_right(
            values_view(entries_map(s.take(i + 1))),
        ));
        i = i + 1;
    }
    assert(s.take(i as int) =~= s);
    proof {
        use_type_invariant(&base_map);
        base_map.lemma_keys_in_order();
        if !(base@ is Object) {
            assert(Map::<Seq<char>, JsonValue>::empty().union_prefer_right(
                values_view(addition.spec_map()),
            ) =~= values_view(addition.spec_map()));
        }
    }
    let r = Json::Object(base_map);
    assert(r@ == JsonValue::Object(object_map_view(base_map)));
    r
}

/// `segs` joined with `sep` between each two of them.
pub open spec fn join_spec(segs: Seq<Seq<char>>, sep: Seq<char>) -> Seq<char>
    decreases segs.len(),
{
    if segs.len() == 0 {
        Seq::empty()
    } else if segs.len() == 1 {
        segs[0]
    } else {
        join_spec(segs.drop_last(), sep) + sep + segs.last()
    }
}

/// The strings of `segs` joined with `sep` between each two of them.
pub fn join(segs: &VecDeque<&str>, sep: &str) -> (r: String)
    ensures
        r@ == join_spec(segs@.map_values(|s: &str| s@), sep@),
{
    let ghost v = segs@.map_values(|s: &str| s@);
    let mut out = String::new();
    if segs.len() > 0 {
        out.append(segs[0]);
        assert(v.take(1).drop_last() =~= v.take(0));
        let mut i: usize = 1;
        while i < segs.len()
            invariant
                1 <= i <= segs@.len(),
                v == segs@.map_values(|s: &str| s@),
                out@ == join_spec(v.take(i as int), sep@),
            decreases segs@.len() - i,
        {
            out.append(sep);
            out.append(segs[i]);
            assert(v.take(i + 1).drop_last() =~= v.take(i as int));
            i = i + 1;
        }
        assert(v.take(i as int) =~= v);
    }
    out
}


proof fn lemma_seg_names_ruled_prefix(r: Rule, rest: Seq<PathSeg>)
    ensures
        seg_names(seq![PathSeg::Ruled(r)] + rest) == seg_names(rest),
    decreases rest.len(),
{
    let segs = seq![PathSeg::Ruled(r)] + rest;
    if rest.len() == 0 {
        assert(segs.drop_last() =~= Seq::<PathSeg>::empty());
        assert(segs.last() == PathSeg::Ruled(r));
        assert(rest =~= Seq::<PathSeg>::empty());
        assert(seg_names(Seq::<PathSeg>::empty()) =~= Seq::empty());
        assert(seg_names(segs) =~= seg_names(rest));
    } else {
        assert(segs.drop_last() =~= seq![PathSeg::Ruled(r)] + rest.drop_last());
        assert(segs.last() == rest.last());
        lemma_seg_names_ruled_prefix(r, rest.drop_last());
    }
}

/// A path with no segments leads to the base path of the innermost
/// block, and to the top of the data where no block encloses it.
pub proof fn law_empty_path(blocks: Seq<BlockContext>)
    ensures
        resolve(Seq::empty(), blocks, true) == Resolution::Absolute(front_base(blocks)),
        blocks.len() == 0 ==> resolve(Seq::empty(), blocks, true) == Resolution::Absolute(
            Seq::empty(),
        ),
{
    assert(front_base(blocks) + seg_names(Seq::<PathSeg>::empty()) =~= front_base(blocks));
}

/// Navigating a path with no segments, with no block around it, finds the
/// whole data.
pub proof fn law_empty_path_finds_data(data: Json)
    ensures
        navigate_spec(data, Seq::empty(), Seq::empty()) == Outcome::Found(data, Seq::empty()),
{
    law_empty_path(Seq::empty());
}

/// A path that starts with `@root` leads from the top of the data through
/// its names, whatever blocks enclose it.
pub proof fn law_root_path(rest: Seq<PathSeg>, blocks: Seq<BlockContext>, always_absolute: bool)
    ensures
        resolve(seq![PathSeg::Ruled(Rule::path_root)] + rest, blocks, always_absolute)
            == Resolution::Absolute(seg_names(rest)),
{
    let segs = seq![PathSeg::Ruled(Rule::path_root)] + rest;
    assert(segs[0] == PathSeg::Ruled(Rule::path_root));
    assert(up_count(segs) == 0);
    lemma_seg_names_ruled_prefix(Rule::path_root, rest);
}

/// With no block around it, a path that starts with a name leads from the
/// top of the data through its names.
pub proof fn law_names_from_top(segs: Seq<PathSeg>, always_absolute: bool)
    requires
        segs.len() > 0,
        segs[0] is Named,
    ensures
        resolve(segs, Seq::empty(), always_absolute) == if always_absolute {
            Resolution::Absolute(seg_names(segs))
        } else {
            Resolution::Relative(seg_names(segs))
        },
{
    assert(up_count(segs) == 0);
    assert(front_base(Seq::empty()) + seg_names(segs) =~= seg_names(segs));
}

/// A path whose first segment names a block parameter bound to a value
/// leads from that value through the names that follow, in place of any
/// key of that name in the data.
pub proof fn law_block_param_value(
    name: String,
    rest: Seq<PathSeg>,
    blocks: Seq<BlockContext>,
    v: Json,
    always_absolute: bool,
)
    requires
        block_param_lookup(blocks, name@) == Some(BlockParamHolder::Value(v)),
    ensures
        resolve(seq![PathSeg::Named(name)] + rest, blocks, always_absolute)
            == Resolution::BlockValue(seg_names(rest), v),
{
    let segs = seq![PathSeg::Named(name)] + rest;
    assert(segs[0] == PathSeg::Named(name));
    assert(up_count(segs) == 0);
    assert(segs.drop_first() =~= rest);
}

/// A path whose first segment names a block parameter bound to a place
/// in the data leads from that place through the names that follow.
pub proof fn law_block_param_path(
    name: String,
    rest: Seq<PathSeg>,
    blocks: Seq<BlockContext>,
    p: Vec<String>,
    always_absolute: bool,
)
    requires
        block_param_lookup(blocks, name@) == Some(BlockParamHolder::Path(p)),
    ensures
        resolve(seq![PathSeg::Named(name)] + rest, blocks, always_absolute)
            == Resolution::Absolute(strings_view(p@) + seg_names(rest)),
{
    let segs = seq![PathSeg::Named(name)] + rest;
    assert(segs[0] == PathSeg::Named(name));
    assert(up_count(segs) == 0);
    assert(segs.drop_first() =~= rest);
}


/// Following `p + q` is following `p` and then, from what it leads to,
/// following `q`; a failure on `p` is the failure of the whole.
pub proof fn law_walk_concat(d: Option<Json>, p: Seq<Seq<char>>, q: Seq<Seq<char>>)
    ensures
        walk(d, p + q) == match walk(d, p) {
            Err(e) => Err(e),
            Ok(x) => walk(x, q),
        },
    decreases q.len(),
{
    if q.len() == 0 {
        assert(p + q =~= p);
    } else {
        assert((p + q).drop_last() =~= p + q.drop_last());
        assert((p + q).last() == q.last());
        law_walk_concat(d, p, q.drop_last());
    }
}


/// Where the innermost block's base path is `"."`, a path that starts with
/// a name bound by no block, or has no segments, leads where it leads with
/// no block at all: from the top of the data.
pub proof fn law_dot_base_path(data: Json, segs: Seq<PathSeg>, blocks: Seq<BlockContext>)
    requires
        blocks.len() > 0,
        is_top_marker(strings_view(blocks[0].spec_base_path()@)),
        segs.len() > 0 ==> (segs[0] matches PathSeg::Named(n) && block_param_lookup(blocks, n@) is None),
    ensures
        resolve(segs, blocks, true) == resolve(segs, Seq::empty(), true),
        navigate_spec(data, segs, blocks) == navigate_spec(data, segs, Seq::empty()),
{
    if segs.len() > 0 {
        assert(up_count(segs) == 0);
    }
    assert(front_base(blocks) + seg_names(segs) =~= seg_names(segs));
    assert(front_base(Seq::<BlockContext>::empty()) + seg_names(segs) =~= seg_names(segs));
}

/// The pieces of `s` between the occurrences of `c`, as `str::split` gives
/// them for a `char` pattern.
pub open spec fn split_on(s: Seq<char>, c: char) -> Seq<Seq<char>>
    decreases s.len(),
{
    if s.len() == 0 {
        seq![Seq::empty()]
    } else {
        let r = split_on(s.drop_last(), c);
        if s.last() == c {
            r.push(Seq::empty())
        } else {
            r.update(r.len() - 1, r.last().push(s.last()))
        }
    }
}

proof fn lemma_split_on_len(s: Seq<char>, c: char)
    ensures
        split_on(s, c).len() >= 1,
    decreases s.len(),
{
    if s.len() > 0 {
        lemma_split_on_len(s.drop_last(), c);
    }
}

/// Appending text without `c` extends the last piece.
proof fn lemma_split_on_extend(x: Seq<char>, y: Seq<char>, c: char)
    requires
        forall|i: int| 0 <= i < y.len() ==> y[i] != c,
    ensures
        split_on(x + y, c) == split_on(x, c).update(
            split_on(x, c).len() - 1,
            split_on(x, c).last() + y,
        ),
    decreases y.len(),
{
    lemma_split_on_len(x, c);
    let r = split_on(x, c);
    if y.len() == 0 {
        assert(x + y =~= x);
        assert(r.last() + y =~= r.last());
        assert(r.update(r.len() - 1, r.last() + y) =~= r);
    } else {
        assert((x + y).drop_last() =~= x + y.drop_last());
        assert((x + y).last() == y.last());
        lemma_split_on_extend(x, y.drop_last(), c);
        assert(y.drop_last().push(y.last()) =~= y);
        assert((r.last() + y.drop_last()).push(y.last()) =~= r.last() + y);
        assert(split_on(x + y, c) =~= r.update(r.len() - 1, r.last() + y));
    }
}

/// Splitting on a one-character separator that no segment holds gives the
/// joined segments back.
pub proof fn law_split_undoes_join(segs: Seq<Seq<char>>, c: char)
    requires
        segs.len() >= 1,
        forall|i: int, j: int| 0 <= i < segs.len() && 0 <= j < segs[i].len() ==> segs[i][j] != c,
    ensures
        split_on(join_spec(segs, seq![c]), c) == segs,
    decreases segs.len(),
{
    let e = Seq::<char>::empty();
    if segs.len() == 1 {
        lemma_split_on_extend(e, segs[0], c);
        assert(e + segs[0] =~= segs[0]);
        assert(split_on(e, c).update(0, split_on(e, c).last() + segs[0]) =~= segs);
    } else {
        let front = segs.drop_last();
        law_split_undoes_join(front, c);
        let x = join_spec(front, seq![c]) + seq![c];
        assert(x.drop_last() =~= join_spec(front, seq![c]));
        assert(split_on(x, c) == front.push(e));
        lemma_split_on_extend(x, segs.last(), c);
        assert(e + segs.last() =~= segs.last());
        assert(split_on(x + segs.last(), c) =~= segs);
    }
}

} // verus!
