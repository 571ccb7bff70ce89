use vstd::prelude::*;

verus! {

/// The grammar rules that a path segment can stand for.
#[allow(non_camel_case_types)]
#[derive(Debug, Clone, Copy, PartialEq, Eq, Structural)]
pub enum Rule {
    /// `@root`: the path starts at the top of the data.
    path_root,
    /// `..`: the path climbs one block up.
    path_up,
}

/// One segment of a template path.
#[derive(Debug, Clone, PartialEq, Eq)]
pub enum PathSeg {
    /// A key or an index, such as `addr` or `0`.
    Named(String),
    /// A segment with a meaning of its own.
    Ruled(Rule),
}

/// The names of the named segments of `segs`, in order.
pub open spec fn seg_names(segs: Seq<PathSeg>) -> Seq<Seq<char>>
    decreases segs.len(),
{
    if segs.len() == 0 {
        Seq::empty()
    } else {
        let rest = seg_names(segs.drop_last());
        match segs.last() {
            PathSeg::Named(s) => rest.push(s@),
            PathSeg::Ruled(_) => rest,
        }
    }
}

/// What a sequence of strings reads as.
pub open spec fn strings_view(v: Seq<String>) -> Seq<Seq<char>> {
    v.map_values(|s: String| s@)
}

/// Appends to `path_stack` the names of the named segments of `relative_path`.
pub fn merge_json_path(path_stack: &mut Vec<String>, relative_path: &[PathSeg])
    ensures
        strings_view(final(path_stack)@) == strings_view(old(path_stack)@) + seg_names(
            relative_path@,
        ),
{
    let mut i: usize = 0;
    while i < relative_path.len()
        invariant
            0 <= i <= relative_path@.len(),
            strings_view(path_stack@) == strings_view(old(path_stack)@) + seg_names(
                relative_path@.take(i as int),
            ),
        decreases relative_path@.len() - i,
    {
        let ghost before = path_stack@;
        assert(relative_path@.take(i + 1).drop_last() =~= relative_path@.take(i as int));
        match &relative_path[i] {
            PathSeg::Named(s) => {
                path_stack.push(s.clone());
                assert(strings_view(path_stack@) =~= strings_view(before).push(s@));
            },
            PathSeg::Ruled(_) => {},
        }
        i = i + 1;
    }
    assert(relative_path@.take(i as int) =~= relative_path@);
}

} // verus!
