// Planning of a hybrid MP4 that is also a ZIP archive: the layout of every
// byte, described as a recipe of inline data and references to source files.
use vstd::prelude::*;

pub mod archive;
pub mod assemble;
pub mod boxes;
pub mod hls;
pub mod layout;
pub mod mp4_box;
pub mod parse;
pub mod recipe;
pub mod sample_table;
pub mod stream;
pub mod types;
pub mod zip;

verus! {

/// One component of a path.
pub enum PathComponent {
    /// The root directory.
    RootDir,
    /// `.`
    CurDir,
    /// `..`
    ParentDir,
    /// A directory or file name.
    Normal(String),
}

/// A path component as a mathematical value.
pub ghost enum ComponentView {
    RootDir,
    CurDir,
    ParentDir,
    Normal(Seq<char>),
}

impl View for PathComponent {
    type V = ComponentView;

    open spec fn view(&self) -> ComponentView {
        match self {
            PathComponent::RootDir => ComponentView::RootDir,
            PathComponent::CurDir => ComponentView::CurDir,
            PathComponent::ParentDir => ComponentView::ParentDir,
            PathComponent::Normal(s) => ComponentView::Normal(s@),
        }
    }
}

/// Views of a sequence of components.
pub open spec fn component_views(cs: Seq<PathComponent>) -> Seq<ComponentView> {
    cs.map_values(|c: PathComponent| c@)
}

/// The characters of each string.
pub open spec fn string_views(v: Seq<String>) -> Seq<Seq<char>> {
    v.map_values(|s: String| s@)
}

/// Length of the longest common prefix of `a` and `b`.
pub open spec fn common_prefix_len(a: Seq<ComponentView>, b: Seq<ComponentView>) -> nat
    decreases a.len(),
{
    if a.len() == 0 || b.len() == 0 || a[0] != b[0] {
        0
    } else {
        1 + common_prefix_len(a.drop_first(), b.drop_first())
    }
}

/// The names among `cs`, other components left out.
pub open spec fn normal_names(cs: Seq<ComponentView>) -> Seq<Seq<char>>
    decreases cs.len(),
{
    if cs.len() == 0 {
        Seq::empty()
    } else {
        match cs.last() {
            ComponentView::Normal(n) => normal_names(cs.drop_last()).push(n),
            _ => normal_names(cs.drop_last()),
        }
    }
}

/// The path from `base` to `target`: one `..` for each component of `base`
/// past their common prefix, then the names of `target` past it.
pub open spec fn spec_relative_path(base: Seq<ComponentView>, target: Seq<ComponentView>) -> Seq<
    Seq<char>,
> {
    let k = common_prefix_len(base, target);
    Seq::new((base.len() - k) as nat, |i: int| ".."@) + normal_names(target.skip(k as int))
}

fn same_component(a: &PathComponent, b: &PathComponent) -> (r: bool)
    ensures
        r == (a@ == b@),
{
    match (a, b) {
        (PathComponent::RootDir, PathComponent::RootDir) => true,
        (PathComponent::CurDir, PathComponent::CurDir) => true,
        (PathComponent::ParentDir, PathComponent::ParentDir) => true,
        (PathComponent::Normal(x), PathComponent::Normal(y)) => *x == *y,
        _ => false,
    }
}

proof fn lemma_common_prefix(a: Seq<ComponentView>, b: Seq<ComponentView>, k: int)
    requires
        0 <= k <= a.len(),
        k <= b.len(),
        forall|j: int| 0 <= j < k ==> a[j] == b[j],
    ensures
        common_prefix_len(a, b) == k + common_prefix_len(a.skip(k), b.skip(k)),
    decreases k,
{
    if k > 0 {
        assert(a[0] == b[0]);
        lemma_common_prefix(a.drop_first(), b.drop_first(), k - 1);
        assert(a.drop_first().skip(k - 1) =~= a.skip(k));
        assert(b.drop_first().skip(k - 1) =~= b.skip(k));
    } else {
        assert(a.skip(0) =~= a);
        assert(b.skip(0) =~= b);
    }
}

/// Compute a relative path from `base` to `target`, as the components to
/// join in order. Both paths should be absolute (canonicalized) for reliable
/// results.
pub fn relative_path(base: &[PathComponent], target: &[PathComponent]) -> (r: Vec<String>)
    ensures
        string_views(r@) == spec_relative_path(
            component_views(base@),
            component_views(target@),
        ),
{
    let ghost bv = component_views(base@);
    let ghost tv = component_views(target@);
    // Find common prefix length
    let mut common_len: usize = 0;
    while common_len < base.len() && common_len < target.len() && same_component(
        &base[common_len],
        &target[common_len],
    )
        invariant
            bv == component_views(base@),
            tv == component_views(target@),
            common_len <= base@.len(),
            common_len <= target@.len(),
            forall|j: int| 0 <= j < common_len ==> bv[j] == tv[j],
        decreases base@.len() - common_len,
    {
        common_len = common_len + 1;
    }
    proof {
        lemma_common_prefix(bv, tv, common_len as int);
        assert(common_prefix_len(bv.skip(common_len as int), tv.skip(common_len as int)) == 0);
    }
    let ghost k = common_len as int;

    let mut result: Vec<String> = Vec::new();
    // Go up from base to common ancestor
    let mut i: usize = common_len;
    while i < base.len()
        invariant
            common_len <= i <= base@.len(),
            result@.len() == i - common_len,
            string_views(result@) == Seq::new((i - common_len) as nat, |j: int| ".."@),
        decreases base@.len() - i,
    {
        let ghost before = result@;
        let up = String::from_str("..");
        result.push(up);
        i = i + 1;
        proof {
            assert(result@ == before.push(up));
            assert(up@ == ".."@);
            assert forall|m: int| 0 <= m < i - common_len implies #[trigger] string_views(result@)[m] == ".."@ by {
                if m < before.len() {
                    assert(result@[m] == before[m]);
                    assert(string_views(before)[m] == Seq::new(before.len(), |j: int| ".."@)[m]);
                } else {
                    assert(result@[m] == up);
                }
            }
            assert(string_views(result@) =~= Seq::new(
                (i - common_len) as nat,
                |j: int| ".."@,
            ));
        }
    }
    let ghost ups = string_views(result@);
    // Go down from common ancestor to target
    let mut j: usize = common_len;
    while j < target.len()
        invariant
            tv == component_views(target@),
            common_len <= j <= target@.len(),
            string_views(result@) == ups + normal_names(
                tv.subrange(common_len as int, j as int),
            ),
        decreases target@.len() - j,
    {
        proof {
            assert(tv.subrange(common_len as int, j + 1).drop_last() =~= tv.subrange(
                common_len as int,
                j as int,
            ));
            assert(tv.subrange(common_len as int, j + 1).last() == target@[j as int]@);
        }
        match &target[j] {
            PathComponent::Normal(c) => {
                let ghost before = result@;
                let name = c.clone();
                result.push(name);
                proof {
                    assert(result@ == before.push(name));
                    assert(string_views(result@) =~= string_views(before).push(
                        name@,
                    ));
                    assert(string_views(result@) =~= ups + normal_names(
                        tv.subrange(common_len as int, j + 1),
                    ));
                }
            },
            _ => {},
        }
        j = j + 1;
    }
    assert(tv.subrange(common_len as int, j as int) =~= tv.skip(common_len as int));
    result
}

} // verus!

verus! {

// ===== Following a relative path =====

/// Where the path `rel` leads from the directory whose names from the root
/// are `dir`: `..` goes up a level (not above the root), any other name goes
/// down into it.
pub open spec fn resolve(dir: Seq<Seq<char>>, rel: Seq<Seq<char>>) -> Seq<Seq<char>>
    decreases rel.len(),
{
    if rel.len() == 0 {
        dir
    } else {
        let d = resolve(dir, rel.drop_last());
        if rel.last() == ".."@ {
            if d.len() == 0 {
                d
            } else {
                d.drop_last()
            }
        } else {
            d.push(rel.last())
        }
    }
}

/// An absolute path with nothing but names after its root, none of them `..`
/// (what canonicalizing gives).
pub open spec fn is_plain_absolute(cs: Seq<ComponentView>) -> bool {
    &&& cs.len() >= 1
    &&& cs[0] == ComponentView::RootDir
    &&& forall|i: int| 1 <= i < cs.len() ==> (#[trigger] cs[i]) is Normal && cs[i]->Normal_0 != ".."@
}

proof fn lemma_common_prefix_agrees(a: Seq<ComponentView>, b: Seq<ComponentView>)
    ensures
        common_prefix_len(a, b) <= a.len(),
        common_prefix_len(a, b) <= b.len(),
        forall|j: int| 0 <= j < common_prefix_len(a, b) ==> a[j] == b[j],
    decreases a.len(),
{
    if !(a.len() == 0 || b.len() == 0 || a[0] != b[0]) {
        lemma_common_prefix_agrees(a.drop_first(), b.drop_first());
        assert forall|j: int| 0 <= j < common_prefix_len(a, b) implies a[j] == b[j] by {
            if j > 0 {
                assert(a.drop_first()[j - 1] == b.drop_first()[j - 1]);
            }
        }
    }
}

/// The names of a path made only of names.
proof fn lemma_names_all_normal(cs: Seq<ComponentView>)
    requires
        forall|i: int| 0 <= i < cs.len() ==> (#[trigger] cs[i]) is Normal,
    ensures
        normal_names(cs) == cs.map_values(|c: ComponentView| c->Normal_0),
    decreases cs.len(),
{
    if cs.len() > 0 {
        lemma_names_all_normal(cs.drop_last());
        assert(cs.drop_last().map_values(|c: ComponentView| c->Normal_0).push(cs.last()->Normal_0)
            =~= cs.map_values(|c: ComponentView| c->Normal_0));
    } else {
        assert(cs.map_values(|c: ComponentView| c->Normal_0) =~= Seq::<Seq<char>>::empty());
    }
}

/// The names of a plain absolute path: all its components but the root.
proof fn lemma_names_plain(cs: Seq<ComponentView>)
    requires
        is_plain_absolute(cs),
    ensures
        normal_names(cs) == cs.skip(1).map_values(|c: ComponentView| c->Normal_0),
    decreases cs.len(),
{
    if cs.len() == 1 {
        assert(normal_names(cs.drop_last()) =~= Seq::<Seq<char>>::empty());
        assert(cs.skip(1).map_values(|c: ComponentView| c->Normal_0) =~= Seq::<Seq<char>>::empty());
    } else {
        lemma_names_plain(cs.drop_last());
        assert(cs.drop_last().skip(1).map_values(|c: ComponentView| c->Normal_0).push(cs.last()->Normal_0)
            =~= cs.skip(1).map_values(|c: ComponentView| c->Normal_0));
    }
}

proof fn lemma_resolve_concat(dir: Seq<Seq<char>>, a: Seq<Seq<char>>, b: Seq<Seq<char>>)
    ensures
        resolve(dir, a + b) == resolve(resolve(dir, a), b),
    decreases b.len(),
{
    if b.len() == 0 {
        assert(a + b =~= a);
    } else {
        assert((a + b).drop_last() =~= a + b.drop_last());
        lemma_resolve_concat(dir, a, b.drop_last());
    }
}

proof fn lemma_resolve_ups(dir: Seq<Seq<char>>, n: int)
    requires
        0 <= n <= dir.len(),
    ensures
        resolve(dir, Seq::new(n as nat, |i: int| ".."@)) == dir.take(dir.len() - n),
    decreases n,
{
    let ups = Seq::new(n as nat, |i: int| ".."@);
    if n == 0 {
        assert(dir.take(dir.len() as int) =~= dir);
    } else {
        assert(ups.drop_last() =~= Seq::new((n - 1) as nat, |i: int| ".."@));
        lemma_resolve_ups(dir, n - 1);
        assert(dir.take(dir.len() - (n - 1)).drop_last() =~= dir.take(dir.len() - n));
    }
}

proof fn lemma_resolve_names(dir: Seq<Seq<char>>, names: Seq<Seq<char>>)
    requires
        forall|i: int| 0 <= i < names.len() ==> (#[trigger] names[i]) != ".."@,
    ensures
        resolve(dir, names) == dir + names,
    decreases names.len(),
{
    if names.len() == 0 {
        assert(dir + names =~= dir);
    } else {
        lemma_resolve_names(dir, names.drop_last());
        assert(names.last() == names[names.len() - 1]);
        assert((dir + names.drop_last()).push(names.last()) =~= dir + names);
    }
}

/// Law: following the relative path from `base` leads to `target`, for
/// absolute paths made of names only (as canonicalized paths are): the
/// `..` steps climb to their common ancestor, the names then lead down.
pub proof fn lemma_relative_path_resolves(base: Seq<ComponentView>, target: Seq<ComponentView>)
    requires
        is_plain_absolute(base),
        is_plain_absolute(target),
    ensures
        resolve(normal_names(base), spec_relative_path(base, target)) == normal_names(target),
{
    let k = common_prefix_len(base, target) as int;
    lemma_common_prefix_agrees(base, target);
    assert(base[0] == target[0]);
    assert(k >= 1) by {
        reveal_with_fuel(common_prefix_len, 2);
    }
    let ups = Seq::new((base.len() - k) as nat, |i: int| ".."@);
    let rest = target.skip(k);
    assert forall|i: int| 0 <= i < rest.len() implies (#[trigger] rest[i]) is Normal by {
        assert(rest[i] == target[k + i]);
    }
    lemma_names_all_normal(rest);
    let down = normal_names(rest);
    assert forall|i: int| 0 <= i < down.len() implies (#[trigger] down[i]) != ".."@ by {
        assert(rest[i] == target[k + i]);
    }
    lemma_names_plain(base);
    lemma_names_plain(target);
    let bn = normal_names(base);
    lemma_resolve_concat(bn, ups, down);
    lemma_resolve_ups(bn, base.len() - k);
    lemma_resolve_names(bn.take(k - 1), down);
    assert(bn.take(k - 1) + down =~= normal_names(target)) by {
        assert forall|i: int| 0 <= i < k - 1 implies bn.take(k - 1)[i] == normal_names(target)[i] by {
            assert(base[i + 1] == target[i + 1]);
        }
    }
}

} // verus!
