use vstd::prelude::*;
use crate::block::{BlockContext, BlockParamHolder};
use crate::error::IndexErrorKind;
use crate::index::{is_digit, spec_parse_index};
use crate::context::{object_or_empty, block_param_lookup, is_top_marker, navigate_spec, resolve, walk, Outcome, Resolution};
use crate::json::{Json, JsonValue};
use crate::order::seq_less;
use crate::path::{seg_names, strings_view, PathSeg, Rule};

verus! {

/// The innermost block that binds `name` decides what it is bound to:
/// where block `i` binds it and no block inside it does, the lookup gives
/// block `i`'s binding, however far out block `i` is; and the lookup finds
/// nothing exactly when no block binds `name`.
pub proof fn law_block_param_lookup_innermost(blocks: Seq<BlockContext>, name: Seq<char>)
    ensures
        forall|i: int|
            0 <= i < blocks.len() && (#[trigger] blocks[i].spec_block_param(name)) is Some && (
            forall|j: int| 0 <= j < i ==> blocks[j].spec_block_param(name) is None)
                ==> block_param_lookup(blocks, name) == blocks[i].spec_block_param(name),
        block_param_lookup(blocks, name) is None <==> forall|i: int|
            0 <= i < blocks.len() ==> (#[trigger] blocks[i].spec_block_param(name)) is None,
    decreases blocks.len(),
{
    if blocks.len() > 0 {
        let rest = blocks.drop_first();
        law_block_param_lookup_innermost(rest, name);
        assert forall|i: int|
            0 <= i < blocks.len() && (#[trigger] blocks[i].spec_block_param(name)) is Some && (
            forall|j: int| 0 <= j < i ==> blocks[j].spec_block_param(name) is None) implies
            block_param_lookup(blocks, name) == blocks[i].spec_block_param(name) by {
            if i > 0 {
                assert(blocks[0].spec_block_param(name) is None);
                assert(rest[i - 1] == blocks[i]);
                assert forall|j: int| 0 <= j < i - 1 implies rest[j].spec_block_param(name) is None by {
                    assert(rest[j] == blocks[j + 1]);
                }
            }
        }
        if block_param_lookup(blocks, name) is None {
            assert forall|i: int| 0 <= i < blocks.len() implies (
            #[trigger] blocks[i].spec_block_param(name)) is None by {
                if i > 0 {
                    assert(rest[i - 1] == blocks[i]);
                }
            }
        }
        if forall|i: int| 0 <= i < blocks.len() ==> (
        #[trigger] blocks[i].spec_block_param(name)) is None {
            assert(blocks[0].spec_block_param(name) is None);
            assert forall|i: int| 0 <= i < rest.len() implies (
            #[trigger] rest[i].spec_block_param(name)) is None by {
                assert(rest[i] == blocks[i + 1]);
            }
        }
    }
}

/// Where two texts first differ, the one with the smaller code point there
/// comes first.
pub proof fn law_seq_less_first_difference(a: Seq<char>, b: Seq<char>, i: int)
    requires
        0 <= i < a.len(),
        i < b.len(),
        a.take(i) == b.take(i),
        a[i] != b[i],
    ensures
        seq_less(a, b) == ((a[i] as int) < (b[i] as int)),
    decreases i,
{
    if i > 0 {
        assert(a[0] == a.take(i)[0]);
        assert(b[0] == b.take(i)[0]);
        assert(a.drop_first().take(i - 1) =~= a.take(i).drop_first());
        assert(b.drop_first().take(i - 1) =~= b.take(i).drop_first());
        law_seq_less_first_difference(a.drop_first(), b.drop_first(), i - 1);
    }
}

/// A proper prefix comes before the text it starts, and never after it.
pub proof fn law_seq_less_prefix(a: Seq<char>, b: Seq<char>)
    requires
        a.len() < b.len(),
        b.take(a.len() as int) == a,
    ensures
        seq_less(a, b),
        !seq_less(b, a),
    decreases a.len(),
{
    if a.len() > 0 {
        assert(b[0] == b.take(a.len() as int)[0]);
        assert(b.drop_first().take(a.len() - 1) =~= a.drop_first());
        law_seq_less_prefix(a.drop_first(), b.drop_first());
    }
}


/// `k` segments `..`.
pub open spec fn ups(k: nat) -> Seq<PathSeg> {
    Seq::new(k, |i: int| PathSeg::Ruled(Rule::path_up))
}

/// Whether every segment is a name.
pub open spec fn all_named(segs: Seq<PathSeg>) -> bool {
    forall|i: int| 0 <= i < segs.len() ==> (#[trigger] segs[i]) is Named
}

/// The names of segments that are all names, in order.
pub open spec fn plain_names(segs: Seq<PathSeg>) -> Seq<Seq<char>> {
    segs.map_values(
        |p: PathSeg|
            match p {
                PathSeg::Named(s) => s@,
                PathSeg::Ruled(_) => Seq::empty(),
            },
    )
}

proof fn lemma_seg_names_concat(a: Seq<PathSeg>, b: Seq<PathSeg>)
    ensures
        seg_names(a + b) == seg_names(a) + seg_names(b),
    decreases b.len(),
{
    if b.len() == 0 {
        assert(a + b =~= a);
        assert(seg_names(a) + seg_names(b) =~= seg_names(a));
    } else {
        assert((a + b).drop_last() =~= a + b.drop_last());
        assert((a + b).last() == b.last());
        lemma_seg_names_concat(a, b.drop_last());
        assert(seg_names(a + b) =~= seg_names(a) + seg_names(b));
    }
}

proof fn lemma_seg_names_ups(k: nat)
    ensures
        seg_names(ups(k)) == Seq::<Seq<char>>::empty(),
    decreases k,
{
    if k > 0 {
        assert(ups(k).drop_last() =~= ups((k - 1) as nat));
        lemma_seg_names_ups((k - 1) as nat);
        assert(seg_names(ups(k)) =~= Seq::<Seq<char>>::empty());
    } else {
        assert(ups(k) =~= Seq::<PathSeg>::empty());
    }
}

proof fn lemma_seg_names_named(segs: Seq<PathSeg>)
    requires
        all_named(segs),
    ensures
        seg_names(segs) == plain_names(segs),
    decreases segs.len(),
{
    if segs.len() > 0 {
        let d = segs.drop_last();
        assert forall|i: int| 0 <= i < d.len() implies (#[trigger] d[i]) is Named by {
            assert(d[i] == segs[i]);
        }
        lemma_seg_names_named(d);
        assert(segs.last() is Named);
        assert(seg_names(segs) =~= plain_names(segs));
    } else {
        assert(seg_names(segs) =~= plain_names(segs));
    }
}

/// A path of `k` segments `..` and then names, the first bound by no
/// block, leads from the base path of the block `k` places out from the
/// innermost (from the top where that base path is `"."`), and from the
/// innermost block's base path where there are not so many blocks.
pub proof fn law_up_path(k: nat, rest: Seq<PathSeg>, blocks: Seq<BlockContext>, always_absolute: bool)
    requires
        k > 0,
        rest.len() > 0,
        all_named(rest),
        forall|i: int|
            0 <= i < blocks.len() ==> (#[trigger] blocks[i].spec_block_param(
                rest[0]->Named_0@,
            )) is None,
    ensures
        k < blocks.len() && !is_top_marker(strings_view(blocks[k as int].spec_base_path()@))
            ==> resolve(ups(k) + rest, blocks, always_absolute) == Resolution::Absolute(
            strings_view(blocks[k as int].spec_base_path()@) + plain_names(rest),
        ),
        k < blocks.len() && is_top_marker(strings_view(blocks[k as int].spec_base_path()@))
            ==> resolve(ups(k) + rest, blocks, always_absolute) == Resolution::Absolute(
            plain_names(rest),
        ),
        k >= blocks.len() > 0 && !is_top_marker(strings_view(blocks[0].spec_base_path()@))
            ==> resolve(ups(k) + rest, blocks, always_absolute) == Resolution::Absolute(
            strings_view(blocks[0].spec_base_path()@) + plain_names(rest),
        ),
        blocks.len() == 0 ==> resolve(ups(k) + rest, blocks, always_absolute)
            == Resolution::Absolute(plain_names(rest)),
{
    let segs = ups(k) + rest;
    assert forall|j: int| 0 <= j < k implies (#[trigger] segs[j]) matches PathSeg::Ruled(
        Rule::path_up,
    ) by {
        assert(segs[j] == ups(k)[j]);
    }
    assert(segs[k as int] == rest[0]);
    crate::context::lemma_up_count(segs, k as int);
    law_block_param_lookup_innermost(blocks, rest[0]->Named_0@);
    lemma_seg_names_concat(ups(k), rest);
    lemma_seg_names_ups(k);
    lemma_seg_names_named(rest);
    assert(seg_names(segs) =~= plain_names(rest));
    assert(Seq::<Seq<char>>::empty() + plain_names(rest) =~= plain_names(rest));
}

/// A path of names, the first bound by no block, starts at the base path
/// of the innermost block (the top where there is no block or that base
/// path is `"."`) and nowhere else: what walking the names from there finds
/// is found, nothing found there is `Missing`, and a bad index fails.
pub proof fn law_plain_path_navigation(data: Json, segs: Seq<PathSeg>, blocks: Seq<BlockContext>)
    requires
        segs.len() > 0,
        all_named(segs),
        forall|i: int|
            0 <= i < blocks.len() ==> (#[trigger] blocks[i].spec_block_param(
                segs[0]->Named_0@,
            )) is None,
    ensures
        ({
            let start = if blocks.len() > 0 && !is_top_marker(
                strings_view(blocks[0].spec_base_path()@),
            ) {
                strings_view(blocks[0].spec_base_path()@)
            } else {
                Seq::empty()
            };
            let names = start + plain_names(segs);
            navigate_spec(data, segs, blocks) == match walk(Some(data), names) {
                Err((s, k)) => Outcome::Failed(s, k),
                Ok(Some(v)) => Outcome::Found(v, names),
                Ok(None) => Outcome::Missing,
            }
        }),
{
    assert(up_count_is_zero(segs)) by {
        assert(segs[0] is Named);
    }
    law_block_param_lookup_innermost(blocks, segs[0]->Named_0@);
    lemma_seg_names_named(segs);
    assert(Seq::<Seq<char>>::empty() + plain_names(segs) =~= plain_names(segs));
}

spec fn up_count_is_zero(segs: Seq<PathSeg>) -> bool {
    crate::context::up_count(segs) == 0
}

/// Once nothing is found, following more names finds nothing and never
/// fails.
pub proof fn law_walk_nothing(path: Seq<Seq<char>>)
    ensures
        walk(None, path) == Ok::<Option<Json>, (Seq<char>, crate::error::IndexErrorKind)>(None),
    decreases path.len(),
{
    if path.len() > 0 {
        law_walk_nothing(path.drop_last());
    }
}

/// One name followed from an object gives the object's value at that
/// name, or nothing; from a value that is neither an object nor an array
/// it gives nothing.
pub proof fn law_walk_one_name(d: Json, k: Seq<char>)
    ensures
        d matches Json::Object(m) ==> walk(Some(d), seq![k]) == Ok::<
            Option<Json>,
            (Seq<char>, crate::error::IndexErrorKind),
        >(if m.spec_map().contains_key(k) {
            Some(m.spec_map()[k])
        } else {
            None
        }),
        d matches Json::Array(l) ==> walk(Some(d), seq![k]) == match spec_parse_index(k) {
            Err(kind) => Err((k, kind)),
            Ok(i) => Ok(
                if i < l@.len() {
                    Some(l@[i as int])
                } else {
                    None
                },
            ),
        },
        !(d is Object) && !(d is Array) ==> walk(Some(d), seq![k]) == Ok::<
            Option<Json>,
            (Seq<char>, crate::error::IndexErrorKind),
        >(None),
{
    let p = seq![k];
    assert(p.drop_last() =~= Seq::<Seq<char>>::empty());
    assert(p.last() == k);
    assert(walk(Some(d), Seq::<Seq<char>>::empty()) == Ok::<
        Option<Json>,
        (Seq<char>, crate::error::IndexErrorKind),
    >(Some(d)));
    assert(walk(Some(d), p) == crate::context::step(Some(d), k));
}


/// A merge holds the keys of the additions and, where the base is an
/// object, those of the base; an addition wins over the base, and a base
/// that is not an object brings no key at all.
pub proof fn law_merge_entries(base: JsonValue, add: Map<Seq<char>, JsonValue>, k: Seq<char>)
    ensures
        ({
            let r = object_or_empty(base).union_prefer_right(add);
            &&& r.contains_key(k) <==> add.contains_key(k) || (base matches JsonValue::Object(
                bm,
            ) && bm.contains_key(k))
            &&& add.contains_key(k) ==> r[k] == add[k]
            &&& base matches JsonValue::Object(bm) ==> (!add.contains_key(k) && bm.contains_key(k)
                ==> r[k] == bm[k])
            &&& !(base is Object) ==> r == add
        }),
{
    let r = object_or_empty(base).union_prefer_right(add);
    if !(base is Object) {
        assert(r =~= add);
    }
}


/// A path whose first segment names a parameter that the innermost block
/// binding it binds to a value leads through the names that follow inside
/// a copy of that value.
pub proof fn law_block_param_value_navigation(
    data: Json,
    name: String,
    rest: Seq<PathSeg>,
    blocks: Seq<BlockContext>,
    i: int,
    v: Json,
)
    requires
        0 <= i < blocks.len(),
        blocks[i].spec_block_param(name@) == Some(BlockParamHolder::Value(v)),
        forall|j: int| 0 <= j < i ==> (#[trigger] blocks[j].spec_block_param(name@)) is None,
        all_named(rest),
    ensures
        navigate_spec(data, seq![PathSeg::Named(name)] + rest, blocks) == match walk(
            Some(v),
            plain_names(rest),
        ) {
            Err((s, k)) => Outcome::Failed(s, k),
            Ok(Some(x)) => Outcome::Derived(x@),
            Ok(None) => Outcome::Missing,
        },
{
    law_block_param_lookup_innermost(blocks, name@);
    crate::context::law_block_param_value(name, rest, blocks, v, true);
    lemma_seg_names_named(rest);
}

/// A single digit reads as its value.
pub proof fn law_parse_index_digit(c: char)
    requires
        is_digit(c),
    ensures
        spec_parse_index(seq![c]) == Ok::<usize, IndexErrorKind>((c as int - '0' as int) as usize),
{
    let s = seq![c];
    assert(s[0] == c);
    assert(s.drop_last() =~= Seq::<char>::empty());
    assert(s.last() == c);
    assert(crate::index::digits_value(Seq::<char>::empty()) == Ok::<int, IndexErrorKind>(0));
    assert(crate::index::digits_value(s) == Ok::<int, IndexErrorKind>(c as int - '0' as int));
}

/// One more digit after a text that reads as `v` reads as `10 * v` plus
/// that digit, while this stays within `usize`; past it, it is too large.
pub proof fn law_parse_index_append_digit(s: Seq<char>, c: char, v: usize)
    requires
        spec_parse_index(s) == Ok::<usize, IndexErrorKind>(v),
        is_digit(c),
    ensures
        v * 10 + (c as int - '0' as int) <= usize::MAX ==> spec_parse_index(s.push(c)) == Ok::<
            usize,
            IndexErrorKind,
        >((v * 10 + (c as int - '0' as int)) as usize),
        v * 10 + (c as int - '0' as int) > usize::MAX ==> spec_parse_index(s.push(c)) == Err::<
            usize,
            IndexErrorKind,
        >(IndexErrorKind::PosOverflow),
{
    let t = s.push(c);
    assert(t[0] == s[0]);
    let d = if s[0] == '+' { s.drop_first() } else { s };
    let e = if t[0] == '+' { t.drop_first() } else { t };
    assert(e =~= d.push(c));
    assert(e.drop_last() =~= d);
    assert(e.last() == c);
    crate::index::lemma_digits_value_bound(d);
    assert(crate::index::digits_value(d) == Ok::<int, IndexErrorKind>(v as int));
}

/// No text that starts with `-` reads as an index.
pub proof fn law_parse_index_no_minus(s: Seq<char>)
    ensures
        spec_parse_index(seq!['-'] + s) is Err,
{
    let t = seq!['-'] + s;
    assert(t[0] == '-');
    lemma_digits_first_not_digit(t);
}

proof fn lemma_digits_first_not_digit(t: Seq<char>)
    requires
        t.len() > 0,
        !is_digit(t[0]),
    ensures
        crate::index::digits_value(t) is Err,
    decreases t.len(),
{
    if t.len() > 1 {
        assert(t.drop_last()[0] == t[0]);
        lemma_digits_first_not_digit(t.drop_last());
    }
}

} // verus!
