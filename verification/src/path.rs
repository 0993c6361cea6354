//! Path helpers: the final component, the parent, joining, lexical
//! normalization and the absolute-path test.

use vstd::prelude::*;
use crate::text::{lemma_split_chars_nonempty, split_chars, string_of_char};

verus! {

broadcast use vstd::std_specs::vec::group_vec_axioms;

/// A component of a path, as `Path::components` reads it.
#[derive(Debug, Clone, PartialEq, Eq)]
pub enum PathComponent {
    Prefix(String),
    RootDir,
    CurDir,
    ParentDir,
    Normal(String),
}

/// The mathematical form of a [`PathComponent`].
pub enum ComponentView {
    Prefix(Seq<char>),
    RootDir,
    CurDir,
    ParentDir,
    Normal(Seq<char>),
}

pub open spec fn component_view(c: PathComponent) -> ComponentView {
    match c {
        PathComponent::Prefix(s) => ComponentView::Prefix(s@),
        PathComponent::RootDir => ComponentView::RootDir,
        PathComponent::CurDir => ComponentView::CurDir,
        PathComponent::ParentDir => ComponentView::ParentDir,
        PathComponent::Normal(s) => ComponentView::Normal(s@),
    }
}

pub open spec fn components_view(v: Seq<PathComponent>) -> Seq<ComponentView> {
    v.map_values(|c: PathComponent| component_view(c))
}

/// The final component of a path, as `Path::file_name` documents it: the
/// last component where it is a normal one, else none (a path that ends in
/// `..`, the root, `.` alone, or the empty path).
pub open spec fn file_name_of(path: Seq<char>) -> Option<Seq<char>> {
    let cs = components_of(path);
    if cs.len() == 0 {
        None
    } else {
        match cs.last() {
            ComponentView::Normal(n) => Some(n),
            _ => None,
        }
    }
}

/// The path without its final component, as `Path::parent` gives it.
pub uninterp spec fn parent_of(path: Seq<char>) -> Option<Seq<char>>;

/// `rest` joined onto `base`, as `Path::join` gives it.
pub uninterp spec fn joined(base: Seq<char>, rest: Seq<char>) -> Seq<char>;

/// The component a part between separators stands for: `..` is the parent
/// directory, any other part a normal component.
pub open spec fn part_component(part: Seq<char>) -> ComponentView {
    if part == ".."@ {
        ComponentView::ParentDir
    } else {
        ComponentView::Normal(part)
    }
}

/// The components of the parts between separators: empty parts and `.` are
/// dropped.
pub open spec fn kept_parts(parts: Seq<Seq<char>>) -> Seq<ComponentView>
    decreases parts.len(),
{
    if parts.len() == 0 {
        Seq::empty()
    } else {
        let before = kept_parts(parts.drop_last());
        let last = parts.last();
        if last.len() == 0 || last == "."@ {
            before
        } else {
            before.push(part_component(last))
        }
    }
}

/// The components of a Unix path, as `Path::components` documents them: the
/// root where the path begins with `/`; else `.` where the first part is
/// `.`; then the parts between separators, with repeated separators, a
/// trailing separator and every other `.` dropped.
pub open spec fn components_of(path: Seq<char>) -> Seq<ComponentView> {
    let parts = split_chars(path, '/');
    let lead = if path.len() > 0 && path[0] == '/' {
        seq![ComponentView::RootDir]
    } else if parts[0] == "."@ {
        seq![ComponentView::CurDir]
    } else {
        Seq::empty()
    };
    lead + kept_parts(parts)
}

/// `Path::new(path).file_name()`, as a string slice (a part of a `&str`, so
/// always UTF-8). Trusted: the result is [`file_name_of`] the path.
#[verifier::external_body]
pub(crate) fn path_file_name<'a>(path: &'a str) -> (r: Option<&'a str>)
    ensures
        match r {
            Some(n) => file_name_of(path@) == Some(n@),
            None => file_name_of(path@) is None,
        },
{
    match std::path::Path::new(path).file_name() {
        Some(n) => n.to_str(),
        None => None,
    }
}

/// `Path::new(path).parent()`, as a string slice (a part of a `&str`, so
/// always UTF-8). Trusted: the result is the one named by [`parent_of`].
#[verifier::external_body]
fn path_parent<'a>(path: &'a str) -> (r: Option<&'a str>)
    ensures
        match r {
            Some(n) => parent_of(path@) == Some(n@),
            None => parent_of(path@) is None,
        },
{
    match std::path::Path::new(path).parent() {
        Some(d) => d.to_str(),
        None => None,
    }
}

/// `Path::new(base).join(rest)`, as a string.
/// Trusted: the result is the one named by [`joined`]; and, as std
/// documents for `PathBuf::push`, an absolute `rest` (on Unix, one that
/// begins with `/`) replaces `base` entirely.
#[verifier::external_body]
fn path_join(base: &str, rest: &str) -> (r: String)
    ensures
        r@ == joined(base@, rest@),
        rest@.len() > 0 && rest@[0] == '/' ==> r@ == rest@,
{
    std::path::Path::new(base).join(rest).to_string_lossy().into_owned()
}

/// A name that a path component can hold: not empty, without `/`, and
/// neither `.` nor `..`.
pub open spec fn is_clean_name(s: Seq<char>) -> bool {
    s.len() > 0 && !s.contains('/') && s != "."@ && s != ".."@
}

/// A component as Unix paths have them: no prefix, and a normal component
/// holds a clean name.
pub open spec fn is_unix_component(c: ComponentView) -> bool {
    match c {
        ComponentView::Prefix(_) => false,
        ComponentView::Normal(s) => is_clean_name(s),
        _ => true,
    }
}

/// `Path::new(path).components()`, each component as a [`PathComponent`].
/// Trusted: the result is [`components_of`] the path, as std documents the
/// reading of a Unix path: a root for a leading `/`, a leading `.` kept,
/// repeated separators, a trailing separator and other `.` parts ignored,
/// `..` as the parent directory, and no prefix.
#[verifier::external_body]
fn path_components(path: &str) -> (r: Vec<PathComponent>)
    ensures
        components_view(r@) == components_of(path@),
{
    std::path::Path::new(path).components().map(|c| match c {
        std::path::Component::Prefix(p) => PathComponent::Prefix(p.as_os_str().to_string_lossy().into_owned()),
        std::path::Component::RootDir => PathComponent::RootDir,
        std::path::Component::CurDir => PathComponent::CurDir,
        std::path::Component::ParentDir => PathComponent::ParentDir,
        std::path::Component::Normal(s) => PathComponent::Normal(s.to_string_lossy().into_owned()),
    }).collect()
}

/// The final component of `path`, or `""` where it has none.
pub fn base_name(path: &str) -> (r: &str)
    ensures
        r@ == match file_name_of(path@) {
            Some(n) => n,
            None => Seq::<char>::empty(),
        },
{
    match path_file_name(path) {
        Some(n) => n,
        None => {
            proof {
                reveal_strlit("");
            }
            ""
        },
    }
}

/// `path` without its final component, or `"."` where it has no parent.
pub fn dir_name(path: &str) -> (r: &str)
    ensures
        r@ == match parent_of(path@) {
            Some(d) => d,
            None => "."@,
        },
{
    match path_parent(path) {
        Some(d) => d,
        None => ".",
    }
}

/// `rest` joined onto `base`; an absolute `rest` replaces `base`.
pub fn join(base: &str, rest: &str) -> (r: String)
    ensures
        r@ == joined(base@, rest@),
        rest@.len() > 0 && rest@[0] == '/' ==> r@ == rest@,
{
    path_join(base, rest)
}

/// Whether `path` is absolute: on Unix, where it begins with `/`.
pub fn is_absolute(path: &str) -> (r: bool)
    ensures
        r == (path@.len() > 0 && path@[0] == '/'),
{
    let cs = crate::text::chars_of(path);
    cs.len() > 0 && cs[0] == '/'
}

/// The parts that normalization keeps after reading the first `n`
/// components: `.` is dropped, `..` removes the part before it (or is kept
/// where there is none), the root and a prefix start afresh.
pub open spec fn normal_parts(cs: Seq<ComponentView>, n: int) -> Seq<Seq<char>>
    decreases n,
{
    if n <= 0 || n > cs.len() {
        Seq::empty()
    } else {
        let before = normal_parts(cs, n - 1);
        match cs[n - 1] {
            ComponentView::CurDir => before,
            ComponentView::ParentDir => if before.len() > 0 {
                before.drop_last()
            } else {
                seq![".."@]
            },
            ComponentView::Normal(s) => before.push(s),
            ComponentView::RootDir => seq![Seq::<char>::empty()],
            ComponentView::Prefix(p) => seq![p],
        }
    }
}

/// No part of a split holds the separator.
proof fn lemma_split_parts_free(s: Seq<char>, sep: char)
    ensures
        forall|i: int| 0 <= i < split_chars(s, sep).len() ==> !(#[trigger] split_chars(s, sep)[i]).contains(sep),
    decreases s.len(),
{
    lemma_split_chars_nonempty(s, sep);
    if s.len() > 0 {
        lemma_split_parts_free(s.drop_last(), sep);
        lemma_split_chars_nonempty(s.drop_last(), sep);
        let r = split_chars(s.drop_last(), sep);
        if s.last() != sep {
            let l = r.last().push(s.last());
            assert(!l.contains(sep)) by {
                if l.contains(sep) {
                    let k = choose|k: int| 0 <= k < l.len() && l[k] == sep;
                    if k < l.len() - 1 {
                        assert(r.last()[k] == sep);
                        assert(r[r.len() - 1].contains(sep));
                    }
                }
            }
            assert forall|i: int| 0 <= i < split_chars(s, sep).len() implies !(#[trigger] split_chars(s, sep)[i]).contains(
                sep,
            ) by {
                if i < r.len() - 1 {
                    assert(split_chars(s, sep)[i] == r[i]);
                }
            }
        } else {
            assert forall|i: int| 0 <= i < split_chars(s, sep).len() implies !(#[trigger] split_chars(s, sep)[i]).contains(
                sep,
            ) by {
                if i < r.len() {
                    assert(split_chars(s, sep)[i] == r[i]);
                } else {
                    assert(split_chars(s, sep)[i] =~= Seq::<char>::empty());
                }
            }
        }
    }
}

proof fn lemma_kept_parts_unix(parts: Seq<Seq<char>>)
    requires
        forall|i: int| 0 <= i < parts.len() ==> !(#[trigger] parts[i]).contains('/'),
    ensures
        forall|i: int| 0 <= i < kept_parts(parts).len() ==> is_unix_component(#[trigger] kept_parts(parts)[i]),
    decreases parts.len(),
{
    if parts.len() > 0 {
        assert forall|i: int| 0 <= i < parts.drop_last().len() implies !(#[trigger] parts.drop_last()[i]).contains('/') by {
            assert(parts.drop_last()[i] == parts[i]);
        }
        lemma_kept_parts_unix(parts.drop_last());
        let last = parts.last();
        assert(!parts[parts.len() - 1].contains('/'));
        let before = kept_parts(parts.drop_last());
        if !(last.len() == 0 || last == "."@) {
            assert(is_unix_component(part_component(last)));
            assert forall|i: int| 0 <= i < kept_parts(parts).len() implies is_unix_component(#[trigger] kept_parts(parts)[i]) by {
                if i < before.len() {
                    assert(kept_parts(parts)[i] == before[i]);
                }
            }
        }
    }
}

/// Every component of a path is one that Unix paths have.
proof fn lemma_components_unix(path: Seq<char>)
    ensures
        forall|i: int| 0 <= i < components_of(path).len() ==> is_unix_component(#[trigger] components_of(path)[i]),
{
    let parts = split_chars(path, '/');
    lemma_split_parts_free(path, '/');
    lemma_split_chars_nonempty(path, '/');
    lemma_kept_parts_unix(parts);
    let lead = if path.len() > 0 && path[0] == '/' {
        seq![ComponentView::RootDir]
    } else if parts[0] == "."@ {
        seq![ComponentView::CurDir]
    } else {
        Seq::empty()
    };
    assert forall|i: int| 0 <= i < components_of(path).len() implies is_unix_component(#[trigger] components_of(path)[i]) by {
        if i >= lead.len() {
            assert(components_of(path)[i] == kept_parts(parts)[i - lead.len()]);
        }
    }
}

/// The shape of normalized parts: an empty first part (the root), or
/// `..`, or a clean name first, and clean names after it.
pub open spec fn is_normal_shape(parts: Seq<Seq<char>>) -> bool {
    forall|i: int|
        0 <= i < parts.len() ==> (is_clean_name(#[trigger] parts[i]) || (i == 0 && (parts[i].len() == 0 || parts[i]
            == ".."@)))
}

proof fn lemma_normal_parts_shape(cs: Seq<ComponentView>, n: int)
    requires
        forall|i: int| 0 <= i < cs.len() ==> is_unix_component(#[trigger] cs[i]),
    ensures
        is_normal_shape(normal_parts(cs, n)),
    decreases n,
{
    if 0 < n <= cs.len() {
        lemma_normal_parts_shape(cs, n - 1);
        let before = normal_parts(cs, n - 1);
        assert(is_unix_component(cs[n - 1]));
        match cs[n - 1] {
            ComponentView::ParentDir => {
                if before.len() > 0 {
                    assert forall|i: int| 0 <= i < before.drop_last().len() implies (is_clean_name(
                        #[trigger] before.drop_last()[i],
                    ) || (i == 0 && (before.drop_last()[i].len() == 0 || before.drop_last()[i] == ".."@))) by {
                        assert(before.drop_last()[i] == before[i]);
                    }
                }
            },
            ComponentView::Normal(s) => {
                assert forall|i: int| 0 <= i < before.push(s).len() implies (is_clean_name(#[trigger] before.push(s)[i])
                    || (i == 0 && (before.push(s)[i].len() == 0 || before.push(s)[i] == ".."@))) by {
                    if i < before.len() {
                        assert(before.push(s)[i] == before[i]);
                    }
                }
            },
            _ => {},
        }
    }
}

/// The parts joined with `/` between them.
pub open spec fn join_slash(parts: Seq<Seq<char>>) -> Seq<char>
    decreases parts.len(),
{
    if parts.len() == 0 {
        Seq::empty()
    } else if parts.len() == 1 {
        parts[0]
    } else {
        join_slash(parts.drop_last()) + seq!['/'] + parts.last()
    }
}

/// The lexical normal form of a path read as `cs`: `"."` where nothing is left.
pub open spec fn normal_form(cs: Seq<ComponentView>) -> Seq<char> {
    let joined = join_slash(normal_parts(cs, cs.len() as int));
    if joined.len() == 0 {
        "."@
    } else {
        joined
    }
}

/// Splitting after a separator starts a new part.
proof fn lemma_split_append(a: Seq<char>, t: Seq<char>)
    requires
        !t.contains('/'),
    ensures
        split_chars(a + seq!['/'] + t, '/') == split_chars(a, '/').push(t),
    decreases t.len(),
{
    if t.len() == 0 {
        let w = a.push('/');
        assert(a + seq!['/'] + t =~= w);
        assert(w.drop_last() =~= a);
        assert(w.last() == '/');
        assert(t =~= Seq::<char>::empty());
        assert(split_chars(w, '/') == split_chars(a, '/').push(Seq::<char>::empty()));
    } else {
        let u = t.drop_last();
        assert(!u.contains('/')) by {
            if u.contains('/') {
                let k = choose|k: int| 0 <= k < u.len() && u[k] == '/';
                assert(t[k] == '/');
            }
        }
        lemma_split_append(a, u);
        let whole = a + seq!['/'] + t;
        assert(whole.drop_last() =~= a + seq!['/'] + u);
        assert(whole.last() == t.last());
        assert(t.last() != '/') by {
            assert(t[t.len() - 1] == t.last());
        }
        lemma_split_chars_nonempty(a, '/');
        let r = split_chars(a, '/').push(u);
        assert(r.update(r.len() - 1, r.last().push(t.last())) =~= split_chars(a, '/').push(t)) by {
            assert(u.push(t.last()) =~= t);
        }
    }
}

/// A sequence without separators splits into itself alone.
proof fn lemma_split_single(t: Seq<char>)
    requires
        !t.contains('/'),
    ensures
        split_chars(t, '/') == seq![t],
    decreases t.len(),
{
    if t.len() > 0 {
        let u = t.drop_last();
        assert(!u.contains('/')) by {
            if u.contains('/') {
                let k = choose|k: int| 0 <= k < u.len() && u[k] == '/';
                assert(t[k] == '/');
            }
        }
        lemma_split_single(u);
        assert(t.last() != '/') by {
            assert(t[t.len() - 1] == t.last());
        }
        assert(u.push(t.last()) =~= t);
        assert(split_chars(t, '/') =~= seq![t]);
    } else {
        assert(t =~= Seq::<char>::empty());
    }
}

/// Parts without separators, joined with `/`, split back into themselves.
proof fn lemma_split_join(q: Seq<Seq<char>>)
    requires
        q.len() >= 1,
        forall|i: int| 0 <= i < q.len() ==> !(#[trigger] q[i]).contains('/'),
    ensures
        split_chars(join_slash(q), '/') == q,
    decreases q.len(),
{
    if q.len() == 1 {
        lemma_split_single(q[0]);
        assert(seq![q[0]] =~= q);
    } else {
        let r = q.drop_last();
        assert forall|i: int| 0 <= i < r.len() implies !(#[trigger] r[i]).contains('/') by {
            assert(r[i] == q[i]);
        }
        lemma_split_join(r);
        assert(!q[q.len() - 1].contains('/'));
        lemma_split_append(join_slash(r), q.last());
        assert(r.push(q.last()) =~= q);
    }
}

/// A joined sequence begins with its first part, followed by `/` where more
/// parts come.
proof fn lemma_join_starts(q: Seq<Seq<char>>)
    requires
        q.len() >= 1,
    ensures
        join_slash(q).len() >= q[0].len(),
        join_slash(q).subrange(0, q[0].len() as int) == q[0],
        q.len() >= 2 ==> join_slash(q).len() > q[0].len() && join_slash(q)[q[0].len() as int] == '/',
    decreases q.len(),
{
    if q.len() >= 2 {
        let r = q.drop_last();
        lemma_join_starts(r);
        assert(r[0] == q[0]);
        let j = join_slash(r) + seq!['/'] + q.last();
        assert(j.subrange(0, q[0].len() as int) =~= join_slash(r).subrange(0, q[0].len() as int));
        if q.len() == 2 {
            assert(join_slash(r) == r[0]);
            assert(j[q[0].len() as int] == '/');
        } else {
            assert(j[q[0].len() as int] == join_slash(r)[q[0].len() as int]);
        }
    }
}

/// The components of parts that are neither empty nor `.`: one for each.
proof fn lemma_kept_all(q: Seq<Seq<char>>)
    requires
        forall|i: int| 0 <= i < q.len() ==> (#[trigger] q[i]).len() > 0 && q[i] != "."@,
    ensures
        kept_parts(q).len() == q.len(),
        forall|i: int| 0 <= i < q.len() ==> #[trigger] kept_parts(q)[i] == part_component(q[i]),
    decreases q.len(),
{
    if q.len() > 0 {
        let r = q.drop_last();
        assert forall|i: int| 0 <= i < r.len() implies (#[trigger] r[i]).len() > 0 && r[i] != "."@ by {
            assert(r[i] == q[i]);
        }
        lemma_kept_all(r);
        assert(q.last() == q[q.len() - 1]);
        assert forall|i: int| 0 <= i < q.len() implies #[trigger] kept_parts(q)[i] == part_component(q[i]) by {
            if i < r.len() {
                assert(kept_parts(q)[i] == kept_parts(r)[i]);
                assert(r[i] == q[i]);
            }
        }
    }
}

/// Normalizing components whose first reads as `parts[0]` and whose others
/// are the normal components `parts[k]` gives back the parts.
proof fn lemma_normal_parts_back(cs: Seq<ComponentView>, parts: Seq<Seq<char>>, n: int)
    requires
        cs.len() == parts.len(),
        1 <= n <= cs.len(),
        normal_parts(cs, 1) == seq![parts[0]],
        forall|k: int| 1 <= k < cs.len() ==> #[trigger] cs[k] == ComponentView::Normal(parts[k]),
    ensures
        normal_parts(cs, n) == parts.take(n),
    decreases n,
{
    if n == 1 {
        assert(parts.take(1) =~= seq![parts[0]]);
    } else {
        lemma_normal_parts_back(cs, parts, n - 1);
        assert(cs[n - 1] == ComponentView::Normal(parts[n - 1]));
        assert(parts.take(n - 1).push(parts[n - 1]) =~= parts.take(n));
    }
}

/// A path in normal form (its parts joined, not empty) normalizes to itself.
proof fn lemma_normal_form_fixed(parts: Seq<Seq<char>>)
    requires
        is_normal_shape(parts),
        join_slash(parts).len() > 0,
    ensures
        normal_form(components_of(join_slash(parts))) == join_slash(parts),
{
    reveal_strlit(".");
    reveal_strlit("..");
    let n = join_slash(parts);
    if parts.len() == 0 {
        assert(false);
    }
    assert forall|i: int| 0 <= i < parts.len() implies !(#[trigger] parts[i]).contains('/') by {
        if parts[i] == ".."@ {
            if parts[i].contains('/') {
                let k = choose|k: int| 0 <= k < parts[i].len() && parts[i][k] == '/';
                assert(parts[i][k] == '.');
            }
        }
    }
    lemma_split_join(parts);
    lemma_join_starts(parts);
    let cs = components_of(n);
    let p0 = parts[0];
    if p0.len() == 0 {
        if parts.len() == 1 {
            assert(n == p0);
            assert(false);
        }
        assert(n[0] == '/');
        let rest = parts.skip(1);
        assert forall|i: int| 0 <= i < rest.len() implies (#[trigger] rest[i]).len() > 0 && rest[i] != "."@ by {
            assert(rest[i] == parts[i + 1]);
            assert(is_clean_name(parts[i + 1]));
        }
        lemma_kept_all(rest);
        assert(parts =~= seq![p0] + rest);
        lemma_kept_concat(seq![p0], rest);
        assert(kept_parts(seq![p0]) =~= Seq::<ComponentView>::empty()) by {
            assert(seq![p0].drop_last() =~= Seq::<Seq<char>>::empty());
            assert(kept_parts(Seq::<Seq<char>>::empty()) == Seq::<ComponentView>::empty());
            assert(seq![p0].last() == p0);
        }
        assert(cs =~= seq![ComponentView::RootDir] + kept_parts(rest));
        assert forall|k: int| 1 <= k < cs.len() implies #[trigger] cs[k] == ComponentView::Normal(parts[k]) by {
            assert(cs[k] == kept_parts(rest)[k - 1]);
            assert(rest[k - 1] == parts[k]);
            assert(is_clean_name(parts[k]));
        }
        assert(normal_parts(cs, 0) == Seq::<Seq<char>>::empty());
        assert(cs[0] == ComponentView::RootDir);
        assert(p0 =~= Seq::<char>::empty());
        assert(normal_parts(cs, 1) =~= seq![p0]);
        lemma_normal_parts_back(cs, parts, cs.len() as int);
    } else {
        assert(n[0] == p0[0]) by {
            assert(n.subrange(0, p0.len() as int)[0] == n[0]);
        }
        assert(n[0] != '/') by {
            if p0 != ".."@ {
                assert(is_clean_name(p0));
                assert(!p0.contains('/'));
            }
        }
        assert forall|i: int| 0 <= i < parts.len() implies (#[trigger] parts[i]).len() > 0 && parts[i] != "."@ by {
            if i > 0 {
                assert(is_clean_name(parts[i]));
            }
        }
        lemma_kept_all(parts);
        assert(cs =~= kept_parts(parts));
        assert forall|k: int| 1 <= k < cs.len() implies #[trigger] cs[k] == ComponentView::Normal(parts[k]) by {
            assert(is_clean_name(parts[k]));
        }
        assert(normal_parts(cs, 0) == Seq::<Seq<char>>::empty());
        assert(cs[0] == part_component(p0));
        if p0 == ".."@ {
            assert(normal_parts(cs, 1) =~= seq![".."@]);
        } else {
            assert(normal_parts(cs, 1) =~= Seq::<Seq<char>>::empty().push(p0));
        }
        assert(normal_parts(cs, 1) =~= seq![p0]);
        lemma_normal_parts_back(cs, parts, cs.len() as int);
    }
    assert(parts.take(parts.len() as int) =~= parts);
}

/// Components of two runs of parts, one after the other.
proof fn lemma_kept_concat(a: Seq<Seq<char>>, b: Seq<Seq<char>>)
    ensures
        kept_parts(a + b) == kept_parts(a) + kept_parts(b),
    decreases b.len(),
{
    if b.len() == 0 {
        assert(a + b =~= a);
        assert(kept_parts(a) + Seq::<ComponentView>::empty() =~= kept_parts(a));
    } else {
        lemma_kept_concat(a, b.drop_last());
        assert((a + b).drop_last() =~= a + b.drop_last());
        assert((a + b).last() == b.last());
        let x = b.last();
        if !(x.len() == 0 || x == "."@) {
            assert((kept_parts(a) + kept_parts(b.drop_last())).push(part_component(x)) =~= kept_parts(a) + kept_parts(
                b.drop_last(),
            ).push(part_component(x)));
        }
    }
}

/// Normalizing twice is normalizing once.
pub proof fn lemma_normalize_idempotent(path: Seq<char>)
    ensures
        normal_form(components_of(normal_form(components_of(path)))) == normal_form(components_of(path)),
{
    reveal_strlit(".");
    let cs = components_of(path);
    lemma_components_unix(path);
    lemma_normal_parts_shape(cs, cs.len() as int);
    let parts = normal_parts(cs, cs.len() as int);
    if join_slash(parts).len() == 0 {
        let dot = "."@;
        lemma_split_single(dot);
        assert(components_of(dot) =~= seq![ComponentView::CurDir] + kept_parts(seq![dot]));
        assert(kept_parts(seq![dot]) =~= Seq::<ComponentView>::empty()) by {
            assert(seq![dot].drop_last() =~= Seq::<Seq<char>>::empty());
            assert(kept_parts(Seq::<Seq<char>>::empty()) == Seq::<ComponentView>::empty());
            assert(seq![dot].last() == dot);
        }
        let c1 = seq![ComponentView::CurDir];
        assert(normal_parts(c1, 0) == Seq::<Seq<char>>::empty());
        assert(normal_parts(c1, 1) =~= Seq::<Seq<char>>::empty());
    } else {
        lemma_normal_form_fixed(parts);
    }
}

/// `path` with `.` components removed and `..` components resolved lexically.
pub fn normalize(path: &str) -> (r: String)
    ensures
        r@ == normal_form(components_of(path@)),
        r@.len() > 0,
        is_normal_shape(normal_parts(components_of(path@), components_of(path@).len() as int)),
{
    let comps = path_components(path);
    let ghost cs = components_view(comps@);
    proof {
        lemma_components_unix(path@);
        lemma_normal_parts_shape(cs, cs.len() as int);
    }
    let mut parts: Vec<String> = Vec::new();
    let mut i: usize = 0;
    while i < comps.len()
        invariant
            i <= comps@.len(),
            cs == components_view(comps@),
            cs.len() == comps@.len(),
            parts_view(parts@) == normal_parts(cs, i as int),
        decreases comps@.len() - i,
    {
        assert(cs[i as int] == component_view(comps@[i as int]));
        let ghost before = parts@;
        match &comps[i] {
            PathComponent::CurDir => {},
            PathComponent::ParentDir => {
                if parts.len() > 0 {
                    parts.pop();
                    assert(parts_view(parts@) =~= parts_view(before).drop_last());
                } else {
                    parts.push(String::from_str(".."));
                    assert(parts_view(parts@) =~= seq![".."@]);
                }
            },
            PathComponent::Normal(s) => {
                parts.push(s.clone());
                assert(parts_view(parts@) =~= parts_view(before).push(s@));
            },
            PathComponent::RootDir => {
                parts.clear();
                parts.push(String::new());
                assert(parts_view(parts@) =~= seq![Seq::<char>::empty()]);
            },
            PathComponent::Prefix(p) => {
                parts.clear();
                parts.push(p.clone());
                assert(parts_view(parts@) =~= seq![p@]);
            },
        }
        i = i + 1;
    }
    let joined = join_parts(&parts);
    if joined.as_str().is_empty() {
        proof { reveal_strlit("."); }
        String::from_str(".")
    } else {
        joined
    }
}

pub open spec fn parts_view(v: Seq<String>) -> Seq<Seq<char>> {
    v.map_values(|s: String| s@)
}

/// The parts joined with `/` between them.
fn join_parts(parts: &Vec<String>) -> (r: String)
    ensures
        r@ == join_slash(parts_view(parts@)),
{
    let mut out = String::new();
    let mut i: usize = 0;
    while i < parts.len()
        invariant
            i <= parts@.len(),
            out@ == join_slash(parts_view(parts@.subrange(0, i as int))),
        decreases parts@.len() - i,
    {
        let ghost pre = parts_view(parts@.subrange(0, i as int));
        let ghost next = parts_view(parts@.subrange(0, i + 1));
        assert(next.drop_last() =~= pre);
        assert(next.last() == parts@[i as int]@);
        if i > 0 {
            let slash = string_of_char('/');
            out.append(slash.as_str());
        }
        out.append(parts[i].as_str());
        assert(out@ =~= join_slash(next));
        i = i + 1;
    }
    assert(parts@.subrange(0, parts@.len() as int) =~= parts@);
    out
}

/// `~` and `~/...` with `home` (the `HOME` variable) in place of the tilde;
/// other paths, and all paths where `home` is not set, are kept.
pub fn expand_tilde(path: &str, home: Option<&str>) -> (r: String)
    ensures
        r@ == (match home {
            Some(h) => if path@.len() >= 2 && path@[0] == '~' && path@[1] == '/' {
                h@ + path@.skip(1)
            } else if path@ == "~"@ {
                h@
            } else {
                path@
            },
            None => path@,
        }),
{
    let cs = crate::text::chars_of(path);
    proof {
        reveal_strlit("");
        reveal_strlit("~");
    }
    match home {
        Some(h) => {
            if cs.len() >= 2 && cs[0] == '~' && cs[1] == '/' {
                let rest = crate::text::string_of_range(&cs, 1, cs.len());
                assert(rest@ =~= path@.skip(1));
                crate::text::concat_str(h, rest.as_str())
            } else if cs.len() == 1 && cs[0] == '~' {
                assert(path@ =~= "~"@);
                crate::text::concat_str(h, "")
            } else {
                crate::text::concat_str(path, "")
            }
        },
        None => crate::text::concat_str(path, ""),
    }
}

} // verus!
