//! Paths as text: their components, their order, and what is left of one below another.
//!
//! Components are parted by forward slashes. Whoever lists files where another sign parts them
//! writes their paths with forward slashes first.

use vstd::prelude::*;
use vstd::string::*;

use crate::text::{
    before, chars_of, comes_before, lemma_before_total, lemma_before_transitive, replace, same,
    slice_of, string_of, views, with_replaced,
};

verus! {

// ---- components ------------------------------------------------------------------------------

/// The end of the segment of `path` that starts at `from`: the next `/`, or the end of the path.
pub open spec fn segment_end(path: Seq<char>, from: int) -> int
    decreases path.len() - from,
{
    if from < 0 || from >= path.len() || path[from] == '/' {
        from
    } else {
        segment_end(path, from + 1)
    }
}

/// Whether the segment `text` that starts at `from` is a component: it is not empty, and it is
/// not a `.` behind another segment.
pub open spec fn is_component(text: Seq<char>, from: int) -> bool {
    text.len() > 0 && (from == 0 || text != seq!['.'])
}

/// Where the components of `path` from `from` on begin and end. The root of an absolute path is
/// its first component, `/`.
pub open spec fn spans(path: Seq<char>, from: int) -> Seq<(int, int)>
    decreases path.len() - from,
{
    if from < 0 || from >= path.len() {
        Seq::empty()
    } else if path[from] == '/' {
        if from == 0 {
            seq![(0int, 1int)] + spans(path, 1)
        } else {
            spans(path, from + 1)
        }
    } else {
        let end = segment_end(path, from);
        proof {
            lemma_segment_end(path, from);
        }
        if is_component(path.subrange(from, end), from) {
            seq![(from, end)] + spans(path, end)
        } else {
            spans(path, end)
        }
    }
}

/// The components of `path`, in order.
pub open spec fn components(path: Seq<char>) -> Seq<Seq<char>> {
    spans(path, 0).map_values(|span: (int, int)| path.subrange(span.0, span.1))
}

/// A segment ends inside its path, and behind its start unless it is empty.
pub proof fn lemma_segment_end(path: Seq<char>, from: int)
    requires
        0 <= from <= path.len(),
    ensures
        from <= segment_end(path, from) <= path.len(),
        from < path.len() && path[from] != '/' ==> from < segment_end(path, from),
    decreases path.len() - from,
{
    if from < path.len() && path[from] != '/' {
        lemma_segment_end(path, from + 1);
    }
}

/// The spans of a path follow one another inside it.
proof fn lemma_spans(path: Seq<char>, from: int)
    requires
        0 <= from,
    ensures
        forall|k: int|
            0 <= k < spans(path, from).len() ==> from <= (#[trigger] spans(path, from)[k]).0
                < spans(path, from)[k].1 <= path.len(),
        forall|j: int, k: int|
            0 <= j < k < spans(path, from).len() ==> (#[trigger] spans(path, from)[j]).1
                <= (#[trigger] spans(path, from)[k]).0,
    decreases path.len() - from,
{
    let all = spans(path, from);
    if from < path.len() {
        let first = if path[from] == '/' {
            (from, from + 1)
        } else {
            lemma_segment_end(path, from);
            (from, segment_end(path, from))
        };
        let rest = spans(path, first.1);
        lemma_spans(path, first.1);
        if all != rest {
            assert(all =~= seq![first] + rest);
            assert forall|k: int| 0 <= k < all.len() implies from <= (#[trigger] all[k]).0
                < all[k].1 <= path.len() by {
                if k > 0 {
                    assert(all[k] == rest[k - 1]);
                }
            }
            assert forall|j: int, k: int| 0 <= j < k < all.len() implies (#[trigger] all[j]).1 <= (
            #[trigger] all[k]).0 by {
                assert(all[k] == rest[k - 1]);
                if j > 0 {
                    assert(all[j] == rest[j - 1]);
                }
            }
        }
    }
}

/// `spans` in machine integers.
pub open spec fn span_views(list: Seq<(usize, usize)>) -> Seq<(int, int)> {
    list.map_values(|span: (usize, usize)| (span.0 as int, span.1 as int))
}

/// Where the components of `path` begin and end.
pub fn spans_of(path: &Vec<char>) -> (list: Vec<(usize, usize)>)
    ensures
        span_views(list@) == spans(path@, 0),
{
    let mut list: Vec<(usize, usize)> = Vec::new();
    let mut at: usize = 0;
    assert(span_views(list@) =~= Seq::<(int, int)>::empty());
    while at < path.len()
        invariant
            at <= path@.len(),
            spans(path@, 0) == span_views(list@) + spans(path@, at as int),
        decreases path@.len() - at,
    {
        let ghost had = span_views(list@);
        if path[at] == '/' {
            if at == 0 {
                list.push((0, 1));
                assert(span_views(list@) =~= had.push((0int, 1int)));
                assert(span_views(list@) + spans(path@, 1) =~= had + spans(path@, 0));
            }
            at = at + 1;
        } else {
            let mut end: usize = at;
            while end < path.len() && path[end] != '/'
                invariant
                    at <= end <= path@.len(),
                    segment_end(path@, at as int) == segment_end(path@, end as int),
                decreases path@.len() - end,
            {
                end = end + 1;
            }
            proof {
                lemma_segment_end(path@, at as int);
            }
            let ghost text = path@.subrange(at as int, end as int);
            let dot = end - at == 1 && path[at] == '.';
            assert(text[0] == path@[at as int]);
            assert(dot ==> text =~= seq!['.']);
            if at == 0 || !dot {
                list.push((at, end));
                assert(span_views(list@) =~= had.push((at as int, end as int)));
                assert(span_views(list@) + spans(path@, end as int) =~= had + spans(
                    path@,
                    at as int,
                ));
            }
            at = end;
        }
    }
    assert(span_views(list@) =~= spans(path@, 0));
    list
}

/// The components of `path`.
pub fn components_of(path: &str) -> (parts: Vec<String>)
    ensures
        views(parts@) == components(path@),
{
    let chars = chars_of(path);
    let list = spans_of(&chars);
    let mut parts: Vec<String> = Vec::new();
    let mut index: usize = 0;
    proof {
        lemma_spans(path@, 0);
    }
    while index < list.len()
        invariant
            index <= list@.len(),
            chars@ == path@,
            span_views(list@) == spans(path@, 0),
            parts@.len() == index,
            forall|k: int| 0 <= k < index ==> (#[trigger] parts@[k])@ == components(path@)[k],
            forall|k: int|
                0 <= k < spans(path@, 0).len() ==> 0 <= (#[trigger] spans(path@, 0)[k]).0 < spans(
                    path@,
                    0,
                )[k].1 <= path@.len(),
        decreases list@.len() - index,
    {
        assert(span_views(list@)[index as int] == spans(path@, 0)[index as int]);
        parts.push(slice_of(&chars, list[index].0, list[index].1));
        index = index + 1;
    }
    assert(views(parts@) =~= components(path@));
    parts
}

// ---- order -----------------------------------------------------------------------------------

/// The place of a component among the kinds of component: the root, then `.`, then `..`, then
/// names.
pub open spec fn rank(component: Seq<char>) -> int {
    if component == seq!['/'] {
        0
    } else if component == seq!['.'] {
        1
    } else if component == seq!['.', '.'] {
        2
    } else {
        3
    }
}

/// Whether the component `left` comes before `right`: by kind, then as text.
pub open spec fn component_before(left: Seq<char>, right: Seq<char>) -> bool {
    rank(left) < rank(right) || (rank(left) == rank(right) && before(left, right))
}

/// Whether one list of components comes before another: by the first component that differs, or
/// by length when one is the start of the other.
pub open spec fn components_before(left: Seq<Seq<char>>, right: Seq<Seq<char>>) -> bool
    decreases left.len(),
{
    if right.len() == 0 {
        false
    } else if left.len() == 0 {
        true
    } else if left[0] != right[0] {
        component_before(left[0], right[0])
    } else {
        components_before(left.skip(1), right.skip(1))
    }
}

/// Whether the path `left` comes before `right`.
pub open spec fn path_before(left: Seq<char>, right: Seq<char>) -> bool {
    components_before(components(left), components(right))
}

/// Whether two paths have the same components.
pub open spec fn same_path(left: Seq<char>, right: Seq<char>) -> bool {
    components(left) == components(right)
}

proof fn lemma_components_before_total(left: Seq<Seq<char>>, right: Seq<Seq<char>>)
    ensures
        !(components_before(left, right) && components_before(right, left)),
        components_before(left, right) || components_before(right, left) <==> left != right,
    decreases left.len(),
{
    if left.len() > 0 && right.len() > 0 {
        lemma_before_total(left[0], right[0]);
        if left[0] == right[0] {
            lemma_components_before_total(left.skip(1), right.skip(1));
            assert(seq![left[0]] + left.skip(1) =~= left);
            assert(seq![right[0]] + right.skip(1) =~= right);
        }
    } else if left.len() == 0 && right.len() == 0 {
        assert(left =~= right);
    }
}

proof fn lemma_components_before_transitive(
    left: Seq<Seq<char>>,
    middle: Seq<Seq<char>>,
    right: Seq<Seq<char>>,
)
    requires
        components_before(left, middle),
        components_before(middle, right),
    ensures
        components_before(left, right),
    decreases left.len(),
{
    if left.len() > 0 {
        lemma_before_total(left[0], middle[0]);
        lemma_before_total(middle[0], right[0]);
        lemma_before_total(left[0], right[0]);
        if left[0] == middle[0] && middle[0] == right[0] {
            lemma_components_before_transitive(left.skip(1), middle.skip(1), right.skip(1));
        } else if before(left[0], middle[0]) && before(middle[0], right[0]) {
            lemma_before_transitive(left[0], middle[0], right[0]);
        }
    }
}

/// Of two paths one comes before the other, unless their components are the same.
pub proof fn lemma_path_before_total(left: Seq<char>, right: Seq<char>)
    ensures
        !(path_before(left, right) && path_before(right, left)),
        path_before(left, right) || path_before(right, left) <==> !same_path(left, right),
{
    lemma_components_before_total(components(left), components(right));
}

/// A path that comes before another comes before all that the other comes before.
pub proof fn lemma_path_before_transitive(left: Seq<char>, middle: Seq<char>, right: Seq<char>)
    requires
        path_before(left, middle),
        path_before(middle, right),
    ensures
        path_before(left, right),
{
    lemma_components_before_transitive(components(left), components(middle), components(right));
}

fn rank_of(component: &str) -> (kind: u8)
    ensures
        kind == rank(component@),
{
    let chars = chars_of(component);
    if chars.len() == 1 {
        assert(chars@ =~= seq![chars@[0]]);
        if chars[0] == '/' {
            return 0;
        }
        if chars[0] == '.' {
            return 1;
        }
    } else if chars.len() == 2 {
        assert(chars@ =~= seq![chars@[0], chars@[1]]);
        if chars[0] == '.' && chars[1] == '.' {
            return 2;
        }
    }
    3
}

/// Where a path stands next to another.
#[derive(Clone, Copy, Debug, PartialEq, Eq, Structural)]
pub enum Place {
    Before,
    Same,
    After,
}

/// Where `left` stands next to `right` in the order of paths.
pub fn place_of(left: &str, right: &str) -> (place: Place)
    ensures
        place == Place::Before <==> path_before(left@, right@),
        place == Place::Same <==> same_path(left@, right@),
        place == Place::After <==> path_before(right@, left@),
{
    proof {
        lemma_path_before_total(left@, right@);
    }
    let a = components_of(left);
    let b = components_of(right);
    let ghost l = components(left@);
    let ghost r = components(right@);
    let mut index: usize = 0;
    assert(l.skip(0) =~= l);
    assert(r.skip(0) =~= r);
    loop
        invariant
            views(a@) == l,
            views(b@) == r,
            index <= a@.len(),
            index <= b@.len(),
            l.take(index as int) == r.take(index as int),
            components_before(l, r) == components_before(l.skip(index as int), r.skip(index as int)),
            l == components(left@),
            r == components(right@),
            !(path_before(left@, right@) && path_before(right@, left@)),
            path_before(left@, right@) || path_before(right@, left@) <==> !same_path(left@, right@),
        decreases a@.len() - index,
    {
        assert(a@.len() == l.len() && b@.len() == r.len());
        if index >= b.len() {
            if index >= a.len() {
                assert(l.take(index as int) =~= l);
                assert(r.take(index as int) =~= r);
                return Place::Same;
            }
            return Place::After;
        }
        if index >= a.len() {
            return Place::Before;
        }
        assert(l.skip(index as int)[0] == a@[index as int]@);
        assert(r.skip(index as int)[0] == b@[index as int]@);
        proof {
            lemma_before_total(a@[index as int]@, b@[index as int]@);
        }
        if !same(a[index].as_str(), b[index].as_str()) {
            let i: u8 = rank_of(a[index].as_str());
            let j: u8 = rank_of(b[index].as_str());
            assert(l != r);
            if i < j || (i == j && comes_before(a[index].as_str(), b[index].as_str())) {
                return Place::Before;
            }
            return Place::After;
        }
        assert(l.skip(index as int).skip(1) =~= l.skip(index as int + 1));
        assert(r.skip(index as int).skip(1) =~= r.skip(index as int + 1));
        assert(l.take(index as int + 1) =~= l.take(index as int).push(l[index as int]));
        assert(r.take(index as int + 1) =~= r.take(index as int).push(r[index as int]));
        index = index + 1;
    }
}

// ---- one path below another ------------------------------------------------------------------

/// Whether `path` is `root` or lies below it.
pub open spec fn is_under(path: Seq<char>, root: Seq<char>) -> bool {
    components(root).is_prefix_of(components(path))
}

/// What is left of `path` below `root`.
pub open spec fn below(path: Seq<char>, root: Seq<char>) -> Seq<char> {
    let all = spans(path, 0);
    let skipped = components(root).len() as int;
    if skipped >= all.len() {
        Seq::empty()
    } else {
        path.subrange(all[skipped].0, all.last().1)
    }
}

/// `path` relative to `root` with forward slashes, or all of it when it does not lie below.
pub open spec fn relative_path(path: Seq<char>, root: Seq<char>) -> Seq<char> {
    with_replaced(
        if is_under(path, root) {
            below(path, root)
        } else {
            path
        },
        '\\',
        '/',
    )
}

/// `path` as seen from `root`: itself when it is absolute, else behind `root` and a `/`.
pub open spec fn joined_path(root: Seq<char>, path: Seq<char>) -> Seq<char> {
    if path.len() > 0 && path[0] == '/' {
        path
    } else if root.len() > 0 && root.last() != '/' {
        root + seq!['/'] + path
    } else {
        root + path
    }
}

/// Whether the last component of `path` is a name with the extension `rs`.
pub open spec fn is_rust(path: Seq<char>) -> bool {
    let parts = components(path);
    &&& parts.len() > 0
    &&& parts.last().len() > 3
    &&& parts.last().skip(parts.last().len() - 3) == seq!['.', 'r', 's']
}

/// Whether `path` is `root` or lies below it.
pub fn lies_under(path: &str, root: &str) -> (under: bool)
    ensures
        under == is_under(path@, root@),
{
    let all = components_of(path);
    let parts = components_of(root);
    assert(all@.len() == components(path@).len());
    assert(parts@.len() == components(root@).len());
    if parts.len() > all.len() {
        return false;
    }
    let mut index: usize = 0;
    while index < parts.len()
        invariant
            index <= parts@.len() <= all@.len(),
            views(all@) == components(path@),
            views(parts@) == components(root@),
            forall|k: int| 0 <= k < index ==> parts@[k]@ == all@[k]@,
        decreases parts@.len() - index,
    {
        assert(components(root@)[index as int] == parts@[index as int]@);
        assert(components(path@)[index as int] == all@[index as int]@);
        if !same(parts[index].as_str(), all[index].as_str()) {
            return false;
        }
        index = index + 1;
    }
    assert forall|k: int| 0 <= k < parts@.len() implies components(root@)[k] == components(
        path@,
    )[k] by {
        assert(components(root@)[k] == parts@[k]@);
        assert(components(path@)[k] == all@[k]@);
    }
    assert(components(root@) =~= components(path@).subrange(0, parts@.len() as int));
    true
}

/// `path` relative to `root` with forward slashes, or all of it when it does not lie below.
pub fn relative_to(path: &str, root: &str) -> (text: String)
    ensures
        text@ == relative_path(path@, root@),
{
    if !lies_under(path, root) {
        return replace(path, '\\', '/');
    }
    let chars = chars_of(path);
    let list = spans_of(&chars);
    let skipped: usize = components_of(root).len();
    proof {
        lemma_spans(path@, 0);
        assert(span_views(list@).len() == list@.len());
    }
    assert(skipped == components(root@).len());
    if skipped >= list.len() {
        let text = String::new();
        assert(text@ =~= relative_path(path@, root@));
        return text;
    }
    let ghost all = spans(path@, 0);
    assert(all[skipped as int] == span_views(list@)[skipped as int]);
    assert(all.last() == span_views(list@)[list@.len() - 1]);
    assert(all[skipped as int].0 < all[skipped as int].1);
    assert(all[skipped as int].0 < all.last().1);
    replace(slice_of(&chars, list[skipped].0, list[list.len() - 1].1).as_str(), '\\', '/')
}

/// `path` as seen from `root`: itself when it is absolute, else behind `root` and a `/`.
pub fn join_path(root: &str, path: &str) -> (text: String)
    ensures
        text@ == joined_path(root@, path@),
{
    let tail = chars_of(path);
    if tail.len() > 0 && tail[0] == '/' {
        return string_of(&tail);
    }
    let head = chars_of(root);
    let mut text = string_of(&head);
    if head.len() > 0 && head[head.len() - 1] != '/' {
        text.push('/');
        assert(text@ =~= root@ + seq!['/']);
    }
    text.append(path);
    text
}

/// Whether the last component of `path` is a name with the extension `rs`.
pub fn is_rust_file(path: &str) -> (rust: bool)
    ensures
        rust == is_rust(path@),
{
    let parts = components_of(path);
    assert(parts@.len() == components(path@).len());
    if parts.len() == 0 {
        return false;
    }
    assert(components(path@).last() == parts@[parts@.len() - 1]@);
    let name = chars_of(parts[parts.len() - 1].as_str());
    let length: usize = name.len();
    if length <= 3 {
        return false;
    }
    let ghost tail = name@.skip(length - 3);
    assert(tail[0] == name@[length - 3] && tail[1] == name@[length - 2] && tail[2] == name@[length
        - 1]);
    assert(tail =~= seq![tail[0], tail[1], tail[2]]);
    name[length - 3] == '.' && name[length - 2] == 'r' && name[length - 1] == 's'
}

// ---- laws ------------------------------------------------------------------------------------

/// Whether `rest` can stand behind a directory and a `/` as it is: it does not begin at the root,
/// nor with a `.` alone.
pub open spec fn is_relative(rest: Seq<char>) -> bool {
    &&& rest.len() > 0 ==> rest[0] != '/'
    &&& rest != seq!['.']
    &&& !seq!['.', '/'].is_prefix_of(rest)
}

/// Whether nothing at the end of `rest` goes without saying: it ends neither in a `/` nor in a `.`
/// behind one.
pub open spec fn is_trim(rest: Seq<char>) -> bool {
    &&& rest.len() > 0
    &&& rest.last() != '/'
    &&& !(rest.len() >= 2 && rest[rest.len() - 2] == '/' && rest.last() == '.')
}

/// `rest` in the directory `directory`.
pub open spec fn inside(directory: Seq<char>, rest: Seq<char>) -> Seq<char> {
    directory + seq!['/'] + rest
}

proof fn lemma_segment_end_in_front(directory: Seq<char>, rest: Seq<char>, from: int)
    requires
        0 <= from <= directory.len(),
    ensures
        segment_end(inside(directory, rest), from) == segment_end(directory, from),
    decreases directory.len() - from,
{
    let path = inside(directory, rest);
    if from < directory.len() {
        assert(path[from] == directory[from]);
        if directory[from] != '/' {
            lemma_segment_end_in_front(directory, rest, from + 1);
        }
    } else {
        assert(path[from] == '/');
    }
}

proof fn lemma_spans_in_front(directory: Seq<char>, rest: Seq<char>, from: int)
    requires
        0 <= from <= directory.len(),
        directory.len() > 0,
    ensures
        spans(inside(directory, rest), from) == spans(directory, from) + spans(
            inside(directory, rest),
            directory.len() as int,
        ),
    decreases directory.len() - from,
{
    let path = inside(directory, rest);
    let behind = spans(path, directory.len() as int);
    if from < directory.len() {
        assert(path[from] == directory[from]);
        if directory[from] == '/' {
            lemma_spans_in_front(directory, rest, from + 1);
        } else {
            lemma_segment_end(directory, from);
            lemma_segment_end_in_front(directory, rest, from);
            let end = segment_end(directory, from);
            assert(path.subrange(from, end) =~= directory.subrange(from, end));
            lemma_spans_in_front(directory, rest, end);
        }
    }
    assert(spans(path, from) =~= spans(directory, from) + behind);
}

proof fn lemma_segment_end_behind(front: Seq<char>, rest: Seq<char>, from: int)
    requires
        0 <= from <= rest.len(),
    ensures
        segment_end(front + rest, front.len() + from) == front.len() + segment_end(rest, from),
    decreases rest.len() - from,
{
    if from < rest.len() {
        assert((front + rest)[front.len() + from] == rest[from]);
        if rest[from] != '/' {
            lemma_segment_end_behind(front, rest, from + 1);
        }
    }
}

/// Spans as they are `by` further back.
spec fn shifted(list: Seq<(int, int)>, by: int) -> Seq<(int, int)> {
    list.map_values(|span: (int, int)| (span.0 + by, span.1 + by))
}

proof fn lemma_spans_behind(front: Seq<char>, rest: Seq<char>, from: int)
    requires
        0 <= from <= rest.len(),
        front.len() > 0,
        from == 0 ==> is_relative(rest),
    ensures
        spans(front + rest, front.len() + from) == shifted(
            spans(rest, from),
            front.len() as int,
        ),
    decreases rest.len() - from,
{
    let path = front + rest;
    let by = front.len() as int;
    if from < rest.len() {
        assert(path[by + from] == rest[from]);
        if rest[from] == '/' {
            lemma_spans_behind(front, rest, from + 1);
        } else {
            lemma_segment_end(rest, from);
            lemma_segment_end_behind(front, rest, from);
            let end = segment_end(rest, from);
            let text = rest.subrange(from, end);
            assert(path.subrange(by + from, by + end) =~= text);
            lemma_spans_behind(front, rest, end);
            if from == 0 {
                if text == seq!['.'] {
                    assert(end == 1);
                    assert(rest[0] == text[0]);
                    lemma_segment_stops(rest, 0);
                    if rest.len() == 1 {
                        assert(rest =~= seq!['.']);
                    } else {
                        assert(seq!['.', '/'] =~= rest.subrange(0, 2));
                    }
                }
            }
        }
    }
    assert(spans(path, by + from) =~= shifted(spans(rest, from), by));
}

proof fn lemma_segment_stops(path: Seq<char>, from: int)
    requires
        0 <= from <= path.len(),
    ensures
        segment_end(path, from) < path.len() ==> path[segment_end(path, from)] == '/',
        forall|k: int| from <= k < segment_end(path, from) ==> #[trigger] path[k] != '/',
    decreases path.len() - from,
{
    if from < path.len() && path[from] != '/' {
        lemma_segment_stops(path, from + 1);
    }
}

proof fn lemma_spans_of_both(directory: Seq<char>, rest: Seq<char>)
    requires
        directory.len() > 0,
        is_relative(rest),
    ensures
        spans(inside(directory, rest), 0) == spans(directory, 0) + shifted(
            spans(rest, 0),
            directory.len() as int + 1,
        ),
{
    let path = inside(directory, rest);
    let front = directory + seq!['/'];
    lemma_spans_in_front(directory, rest, 0);
    assert(path[directory.len() as int] == '/');
    assert(spans(path, directory.len() as int) == spans(path, directory.len() as int + 1));
    lemma_spans_behind(front, rest, 0);
    assert(front.len() == directory.len() + 1);
}

/// The components of a path in a directory are those of the directory and behind them those of the
/// path, however deep either is; a `.` behind a directory is none.
pub proof fn lemma_components_add_up(directory: Seq<char>, rest: Seq<char>)
    requires
        directory.len() > 0,
        is_relative(rest),
    ensures
        components(inside(directory, rest)) == components(directory) + components(rest),
        components(inside(directory, seq!['.'])) == components(directory),
{
    let path = inside(directory, rest);
    let by = directory.len() as int + 1;
    lemma_spans_of_both(directory, rest);
    lemma_spans(directory, 0);
    lemma_spans(rest, 0);
    let near = spans(directory, 0);
    let far = spans(rest, 0);
    assert forall|k: int| 0 <= k < near.len() implies path.subrange(
        (#[trigger] near[k]).0,
        near[k].1,
    ) == directory.subrange(near[k].0, near[k].1) by {
        assert(path.subrange(near[k].0, near[k].1) =~= directory.subrange(near[k].0, near[k].1));
    }
    assert forall|k: int| 0 <= k < far.len() implies path.subrange(
        (#[trigger] far[k]).0 + by,
        far[k].1 + by,
    ) == rest.subrange(far[k].0, far[k].1) by {
        assert(path.subrange(far[k].0 + by, far[k].1 + by) =~= rest.subrange(far[k].0, far[k].1));
    }
    assert(components(path) =~= components(directory) + components(rest));
    let same_place = inside(directory, seq!['.']);
    let end = directory.len() as int;
    lemma_spans_in_front(directory, seq!['.'], 0);
    assert(same_place[end] == '/' && same_place[end + 1] == '.');
    lemma_segment_end(same_place, end + 1);
    assert(same_place.subrange(end + 1, segment_end(same_place, end + 1)) =~= seq!['.']);
    assert(spans(same_place, segment_end(same_place, end + 1)) =~= Seq::empty());
    assert(spans(same_place, end + 1) =~= Seq::empty());
    assert(spans(same_place, end) == spans(same_place, end + 1));
    assert(spans(same_place, 0) =~= near);
    assert forall|k: int| 0 <= k < near.len() implies same_place.subrange(
        (#[trigger] near[k]).0,
        near[k].1,
    ) == directory.subrange(near[k].0, near[k].1) by {
        assert(same_place.subrange(near[k].0, near[k].1) =~= directory.subrange(
            near[k].0,
            near[k].1,
        ));
    }
    assert(components(same_place) =~= components(directory));
}

/// A name without a slash is its own only component, an empty path has none, and a path at the root
/// has the root in front.
pub proof fn lemma_name_is_one_component(name: Seq<char>, rest: Seq<char>)
    requires
        is_relative(rest),
    ensures
        name.len() > 0 && !name.contains('/') ==> components(name) == seq![name],
        components(Seq::empty()) == Seq::<Seq<char>>::empty(),
        components(seq!['/'] + rest) == seq![seq!['/']] + components(rest),
{
    if name.len() > 0 && !name.contains('/') {
        assert(name.contains(name[0]));
        lemma_segment_end(name, 0);
        lemma_segment_stops(name, 0);
        let end = segment_end(name, 0);
        if end < name.len() {
            assert(name.contains(name[end]));
        }
        assert(name.subrange(0, end) =~= name);
        assert(spans(name, end) =~= Seq::empty());
        assert(spans(name, 0) =~= seq![(0int, end)]);
        assert(components(name) =~= seq![name]);
    }
    assert(components(Seq::empty()) =~= Seq::<Seq<char>>::empty());
    let path = seq!['/'] + rest;
    lemma_spans_behind(seq!['/'], rest, 0);
    lemma_spans(rest, 0);
    let far = spans(rest, 0);
    assert(spans(path, 0) =~= seq![(0int, 1int)] + shifted(far, 1));
    assert forall|k: int| 0 <= k < far.len() implies path.subrange(
        (#[trigger] far[k]).0 + 1,
        far[k].1 + 1,
    ) == rest.subrange(far[k].0, far[k].1) by {
        assert(path.subrange(far[k].0 + 1, far[k].1 + 1) =~= rest.subrange(far[k].0, far[k].1));
    }
    assert(path.subrange(0, 1) =~= seq!['/']);
    assert(components(path) =~= seq![seq!['/']] + components(rest));
}

proof fn lemma_spans_reach_the_end(rest: Seq<char>, from: int)
    requires
        is_trim(rest),
        0 <= from < rest.len(),
        from == 0 || rest[from - 1] == '/' || rest[from] == '/',
    ensures
        spans(rest, from).len() > 0,
        spans(rest, from).last().1 == rest.len(),
    decreases rest.len() - from,
{
    if rest[from] == '/' {
        lemma_spans_reach_the_end(rest, from + 1);
        if from == 0 {
            assert(spans(rest, 0).last() == spans(rest, 1).last());
        }
    } else {
        lemma_segment_end(rest, from);
        lemma_segment_stops(rest, from);
        let end = segment_end(rest, from);
        if end < rest.len() {
            lemma_spans_reach_the_end(rest, end);
            if is_component(rest.subrange(from, end), from) {
                assert(spans(rest, from).last() == spans(rest, end).last());
            }
        } else {
            let text = rest.subrange(from, end);
            if text == seq!['.'] && from != 0 {
                assert(text[0] == rest[from]);
                assert(text.len() == seq!['.'].len());
                assert(end == from + 1);
                assert(rest[rest.len() - 2] == '/');
                assert(rest.last() == '.');
            }
            assert(is_component(text, from));
            assert(spans(rest, end) =~= Seq::empty());
            assert(spans(rest, from) =~= seq![(from, end)]);
        }
    }
}

/// What lies in a directory lies under it, and what is left of it below the directory is what was
/// put behind it, with forward slashes.
pub proof fn lemma_relative_path_reads_back(root: Seq<char>, rest: Seq<char>)
    requires
        root.len() > 0,
        is_relative(rest),
        is_trim(rest),
    ensures
        is_under(inside(root, rest), root),
        is_under(root, root),
        relative_path(inside(root, rest), root) == with_replaced(rest, '\\', '/'),
        !rest.contains('\\') ==> relative_path(inside(root, rest), root) == rest,
{
    let path = inside(root, rest);
    let by = root.len() as int + 1;
    lemma_components_add_up(root, rest);
    lemma_spans_of_both(root, rest);
    lemma_spans_reach_the_end(rest, 0);
    assert(components(root) =~= components(path).subrange(0, components(root).len() as int));
    assert(components(root).is_prefix_of(components(root)));
    let all = spans(path, 0);
    let skipped = components(root).len() as int;
    let far = spans(rest, 0);
    assert(skipped == spans(root, 0).len());
    assert(all.last() == shifted(far, by).last());
    assert(all.last().1 == path.len());
    assert(all[skipped] == shifted(far, by)[0]);
    assert(far[0].0 == 0) by {
        lemma_segment_end(rest, 0);
        assert(rest[0] != '/');
        assert(rest.subrange(0, segment_end(rest, 0)).len() > 0);
    }
    assert(path.subrange(by, path.len() as int) =~= rest);
    assert(below(path, root) == rest);
    if !rest.contains('\\') {
        assert(with_replaced(rest, '\\', '/') =~= rest) by {
            assert forall|k: int| 0 <= k < rest.len() implies rest[k] != '\\' by {
                assert(rest.contains(rest[k]));
            }
        }
    }
}

/// Lying under a directory is inherited: what lies under one that lies under another lies under that
/// too.
pub proof fn lemma_under_goes_all_the_way_up(path: Seq<char>, middle: Seq<char>, root: Seq<char>)
    requires
        is_under(path, middle),
        is_under(middle, root),
    ensures
        is_under(path, root),
{
    let p = components(path);
    let m = components(middle);
    let r = components(root);
    assert(r =~= p.subrange(0, r.len() as int)) by {
        assert forall|k: int| 0 <= k < r.len() implies r[k] == p[k] by {
            assert(r[k] == m.subrange(0, r.len() as int)[k]);
            assert(m[k] == p.subrange(0, m.len() as int)[k]);
        }
    }
}

/// A path joined to a directory is the path itself where it begins at the root, and else lies in the
/// directory.
pub proof fn lemma_joined_path_lies_inside(root: Seq<char>, path: Seq<char>)
    requires
        root.len() > 0,
    ensures
        path.len() > 0 && path[0] == '/' ==> joined_path(root, path) == path,
        is_relative(path) && root.last() != '/' ==> joined_path(root, path) == inside(root, path)
            && is_under(joined_path(root, path), root),
        is_relative(path) ==> components(joined_path(root, path)) == components(root) + components(
            path,
        ),
{
    if is_relative(path) {
        lemma_components_add_up(root, path);
        assert(components(root) =~= components(inside(root, path)).subrange(
            0,
            components(root).len() as int,
        ));
        if root.last() == '/' {
            if root.len() == 1 {
                assert(root =~= seq!['/']);
                lemma_name_is_one_component(path, path);
                lemma_name_is_one_component(path, Seq::empty());
                assert(seq!['/'] + Seq::<char>::empty() =~= root);
                assert(components(root) =~= seq![seq!['/']]);
            } else {
                let bare = root.drop_last();
                lemma_components_add_up(bare, path);
                lemma_components_add_up(bare, Seq::empty());
                lemma_name_is_one_component(path, Seq::empty());
                assert(inside(bare, Seq::empty()) =~= root);
                assert(inside(bare, path) =~= root + path);
                assert(components(bare) + components(Seq::empty()) =~= components(bare));
            }
        }
    }
}

/// A file is a rust file exactly when its name ends in `.rs` behind something else, wherever it
/// lies.
pub proof fn lemma_extension_tells_a_rust_file(directory: Seq<char>, name: Seq<char>)
    requires
        directory.len() > 0,
        name.len() > 0,
        !name.contains('/'),
        name != seq!['.'],
    ensures
        is_rust(inside(directory, name)) <==> name.len() > 3 && name[name.len() - 3] == '.'
            && name[name.len() - 2] == 'r' && name[name.len() - 1] == 's',
        is_rust(name) <==> is_rust(inside(directory, name)),
{
    assert(name.contains(name[0]));
    if seq!['.', '/'].is_prefix_of(name) {
        assert(name.subrange(0, 2)[1] == '/');
        assert(name.contains(name[1]));
    }
    lemma_components_add_up(directory, name);
    lemma_name_is_one_component(name, Seq::empty());
    let parts = components(inside(directory, name));
    assert(parts.last() == name);
    if name.len() > 3 {
        let tail = name.skip(name.len() - 3);
        assert(tail =~= seq![name[name.len() - 3], name[name.len() - 2], name[name.len() - 1]]);
        if tail == seq!['.', 'r', 's'] {
            assert(tail[0] == '.' && tail[1] == 'r' && tail[2] == 's');
        }
    }
}

proof fn lemma_common_components_do_not_count(
    common: Seq<Seq<char>>,
    left: Seq<Seq<char>>,
    right: Seq<Seq<char>>,
)
    ensures
        components_before(common + left, common + right) == components_before(left, right),
    decreases common.len(),
{
    let l = common + left;
    let r = common + right;
    if common.len() == 0 {
        assert(l =~= left);
        assert(r =~= right);
    } else {
        lemma_common_components_do_not_count(common.skip(1), left, right);
        assert(l.skip(1) =~= common.skip(1) + left);
        assert(r.skip(1) =~= common.skip(1) + right);
        assert(l[0] == common[0] && r[0] == common[0]);
    }
}

/// Paths in one directory are ordered as they are without it, the directory comes before what lies
/// in it, and two names are ordered as texts, unless one of them is special.
pub proof fn lemma_paths_are_ordered_by_component(
    directory: Seq<char>,
    left: Seq<char>,
    right: Seq<char>,
)
    requires
        directory.len() > 0,
        is_relative(left),
        is_relative(right),
        right.len() > 0,
    ensures
        path_before(inside(directory, left), inside(directory, right)) <==> path_before(left, right),
        components(right).len() > 0 ==> path_before(directory, inside(directory, right)),
        left.len() > 0 && !left.contains('/') && !right.contains('/') && left != seq!['.', '.']
            && right != seq!['.', '.'] ==> (path_before(left, right) <==> before(left, right)),
{
    lemma_components_add_up(directory, left);
    lemma_components_add_up(directory, right);
    lemma_common_components_do_not_count(
        components(directory),
        components(left),
        components(right),
    );
    lemma_common_components_do_not_count(
        components(directory),
        Seq::empty(),
        components(right),
    );
    assert(components(directory) + Seq::<Seq<char>>::empty() =~= components(directory));
    lemma_name_is_one_component(left, Seq::empty());
    lemma_name_is_one_component(right, Seq::empty());
    if left.len() > 0 && !left.contains('/') && !right.contains('/') {
        assert(left.contains(left[0]));
        assert(right.contains(right[0]));
        lemma_before_total(left, right);
        assert(seq![left][0] == left && seq![right][0] == right);
        assert(seq![left].skip(1) =~= Seq::empty());
        assert(seq![right].skip(1) =~= Seq::empty());
        assert(!components_before(Seq::empty(), Seq::empty()));
        if left != seq!['.', '.'] && right != seq!['.', '.'] {
            assert(rank(left) == 3 && rank(right) == 3);
            assert(components_before(seq![left], seq![right]) == before(left, right));
        }
        assert(left != seq!['/']);
        assert(right != seq!['/']);
    }
}

/// A path that does not lie under a directory is left whole, but for its backslashes; of the
/// directory itself nothing is left.
pub proof fn lemma_path_elsewhere_is_left_whole(path: Seq<char>, root: Seq<char>)
    ensures
        !components(root).is_prefix_of(components(path)) ==> relative_path(path, root)
            == with_replaced(path, '\\', '/'),
        relative_path(root, root).len() == 0,
{
    assert(components(root).is_prefix_of(components(root)));
}

/// A slash at the end of a path that lies under a directory changes nothing about what is left of it
/// there, nor about its components.
pub proof fn lemma_slash_at_the_end_is_free(path: Seq<char>, root: Seq<char>)
    requires
        path.len() > 0,
    ensures
        components(path + seq!['/']) == components(path),
        is_under(path, root) ==> relative_path(path + seq!['/'], root) == relative_path(path, root),
{
    let longer = path + seq!['/'];
    assert(longer =~= inside(path, Seq::empty()));
    lemma_components_add_up(path, Seq::empty());
    assert(components(Seq::empty()) =~= Seq::<Seq<char>>::empty());
    assert(components(path) + Seq::<Seq<char>>::empty() =~= components(path));
    lemma_spans_of_both(path, Seq::empty());
    assert(spans(Seq::empty(), 0) =~= Seq::<(int, int)>::empty());
    let all = spans(path, 0);
    assert(spans(longer, 0) =~= all);
    lemma_spans(path, 0);
    let skipped = components(root).len() as int;
    if is_under(path, root) && skipped < all.len() {
        assert(all[skipped].0 < all[skipped].1 <= path.len());
        assert(all.last() == all[all.len() - 1]);
        assert(all.last().1 <= path.len());
        assert(longer.subrange(all[skipped].0, all.last().1) =~= path.subrange(
            all[skipped].0,
            all.last().1,
        ));
    }
}

/// The directory above comes before every name.
pub proof fn lemma_directory_above_comes_first(name: Seq<char>)
    requires
        is_relative(name),
        name.len() > 0,
        !name.contains('/'),
        name != seq!['.', '.'],
    ensures
        path_before(seq!['.', '.'], name),
        path_before(seq!['/'], name),
{
    let above = seq!['.', '.'];
    assert(!above.contains('/'));
    assert(name.contains(name[0]));
    lemma_name_is_one_component(above, Seq::empty());
    lemma_name_is_one_component(name, Seq::empty());
    assert(seq!['/'] + Seq::<char>::empty() =~= seq!['/']);
    assert(components(Seq::empty()) =~= Seq::<Seq<char>>::empty());
    assert(components(seq!['/']) =~= seq![seq!['/']]);
    assert(rank(name) == 3);
    assert(above[0] == '.');
    assert(above != seq!['/']);
    assert(above.len() == 2 && seq!['.'].len() == 1);
    assert(rank(above) == 2);
}

} // verus!
