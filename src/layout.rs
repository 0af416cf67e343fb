use vstd::prelude::*;
use crate::index::{entry_views, keys_distinct, TopicIndex};
use crate::resource::{copy_resources, resource_views, Resource, ResourceView};
use crate::topic::{append_segments, copy_strings, lemma_path_starts, path_of, same_strings, seg_views, RESOUCES_FILE, TOPICS_FILE};

verus! {

/// One directory of the materialized hierarchy: its segments below the root,
/// the resources index it holds if a topic is tagged there, and the names of
/// its immediate child directories, in lexicographic order.
pub struct DirectoryPlan {
    pub segments: Vec<String>,
    pub resources: Option<Vec<Resource>>,
    pub children: Vec<String>,
}

/// The abstract value of a `DirectoryPlan`.
pub struct DirView {
    pub segs: Seq<Seq<char>>,
    pub resources: Option<Seq<ResourceView>>,
    pub children: Seq<Seq<char>>,
}

impl View for DirectoryPlan {
    type V = DirView;

    open spec fn view(&self) -> DirView {
        DirView {
            segs: seg_views(self.segments@),
            resources: match self.resources {
                Some(v) => Some(resource_views(v@)),
                None => None,
            },
            children: seg_views(self.children@),
        }
    }
}

/// The JSON text of a list of strings, as serde_json writes it.
pub uninterp spec fn json_string_array(names: Seq<Seq<char>>) -> Seq<char>;

/// Relies on serde_json::to_string: the JSON array text of a list of strings,
/// a function of the strings alone. Writing into memory, it fails only where
/// a value's own serialization fails, which a string's never does.
#[verifier::external_body]
fn to_json_strings(names: &Vec<String>) -> (r: Option<String>)
    ensures
        r is Some,
        r->0@ == json_string_array(seg_views(names@)),
{
    serde_json::to_string(names).ok()
}

impl DirectoryPlan {
    /// The directory's path below the root, in the canonical form of topic
    /// paths (`/` for the root itself).
    pub fn directory_path(&self) -> (r: String)
        ensures
            r@ == path_of(self@.segs),
    {
        let mut r = String::from_str("/");
        proof {
            reveal_strlit("/");
        }
        append_segments(&mut r, &self.segments);
        proof {
            lemma_path_starts(self@.segs);
            assert(r@ =~= path_of(self@.segs));
        }
        r
    }

    /// The path of the directory's resources index.
    pub fn resources_path(&self) -> (r: String)
        ensures
            r@ == path_of(self@.segs) + RESOUCES_FILE@,
    {
        self.directory_path().concat(RESOUCES_FILE)
    }

    /// The path of the directory's child-topics index.
    pub fn topics_path(&self) -> (r: String)
        ensures
            r@ == path_of(self@.segs) + TOPICS_FILE@,
    {
        self.directory_path().concat(TOPICS_FILE)
    }

    /// The content of the directory's child-topics index: a JSON array of
    /// the child names.
    pub fn topics_json(&self) -> (r: String)
        ensures
            r@ == json_string_array(self@.children),
    {
        to_json_strings(&self.children).unwrap()
    }
}

/// Lexicographic order on character sequences, by code point; a proper
/// prefix comes first. This is the order in which `str` compares.
pub open spec fn lex_lt(a: Seq<char>, b: Seq<char>) -> bool
    decreases a.len(),
{
    if b.len() == 0 {
        false
    } else if a.len() == 0 {
        true
    } else if a[0] != b[0] {
        (a[0] as int) < (b[0] as int)
    } else {
        lex_lt(a.drop_first(), b.drop_first())
    }
}

/// The names are in strictly increasing lexicographic order.
pub open spec fn sorted_names(s: Seq<Seq<char>>) -> bool {
    forall|a: int, b: int| 0 <= a < b < s.len() ==> lex_lt(#[trigger] s[a], #[trigger] s[b])
}

pub proof fn lemma_sorted_distinct(s: Seq<Seq<char>>)
    requires
        sorted_names(s),
    ensures
        s.no_duplicates(),
{
    assert forall|a: int, b: int| 0 <= a < s.len() && 0 <= b < s.len() && a != b implies s[a] != s[b] by {
        if a < b {
            assert(lex_lt(s[a], s[b]));
            lemma_lex_irreflexive(s[a]);
        } else {
            assert(lex_lt(s[b], s[a]));
            lemma_lex_irreflexive(s[b]);
        }
    }
}

pub proof fn lemma_lex_irreflexive(a: Seq<char>)
    ensures
        !lex_lt(a, a),
    decreases a.len(),
{
    if a.len() > 0 {
        lemma_lex_irreflexive(a.drop_first());
    }
}

pub proof fn lemma_lex_transitive(a: Seq<char>, b: Seq<char>, c: Seq<char>)
    requires
        lex_lt(a, b),
        lex_lt(b, c),
    ensures
        lex_lt(a, c),
    decreases a.len(),
{
    if a.len() > 0 && a[0] == b[0] && b[0] == c[0] {
        lemma_lex_transitive(a.drop_first(), b.drop_first(), c.drop_first());
    }
}

pub proof fn lemma_lex_total(a: Seq<char>, b: Seq<char>)
    requires
        a != b,
    ensures
        lex_lt(a, b) || lex_lt(b, a),
    decreases a.len(),
{
    if a.len() > 0 && b.len() > 0 && a[0] == b[0] {
        if a.drop_first() == b.drop_first() {
            assert(a =~= seq![a[0]] + a.drop_first());
            assert(b =~= seq![b[0]] + b.drop_first());
        }
        lemma_lex_total(a.drop_first(), b.drop_first());
    } else if a.len() == 0 && b.len() == 0 {
        assert(a =~= b);
    } else if a.len() > 0 && b.len() > 0 {
        assert((a[0] as int) != (b[0] as int));
    }
}

/// Compares two names in lexicographic order.
pub fn name_lt(a: &String, b: &String) -> (r: bool)
    ensures
        r == lex_lt(a@, b@),
{
    let sa = a.as_str();
    let sb = b.as_str();
    let na = sa.unicode_len();
    let nb = sb.unicode_len();
    let mut i: usize = 0;
    assert(a@.skip(0) =~= a@);
    assert(b@.skip(0) =~= b@);
    while i < na && i < nb
        invariant
            na == a@.len(),
            nb == b@.len(),
            sa@ == a@,
            sb@ == b@,
            i <= na,
            i <= nb,
            lex_lt(a@, b@) == lex_lt(a@.skip(i as int), b@.skip(i as int)),
        decreases na - i,
    {
        let x = sa.get_char(i);
        let y = sb.get_char(i);
        assert(a@.skip(i as int)[0] == x);
        assert(b@.skip(i as int)[0] == y);
        if x != y {
            return (x as u32) < (y as u32);
        }
        assert(a@.skip(i as int).drop_first() =~= a@.skip(i + 1));
        assert(b@.skip(i as int).drop_first() =~= b@.skip(i + 1));
        i = i + 1;
    }
    i < nb
}

/// Inserts `x` into a sorted list of names, keeping it sorted.
fn insert_sorted(v: &mut Vec<String>, x: String)
    requires
        sorted_names(seg_views(old(v)@)),
        !seg_views(old(v)@).contains(x@),
    ensures
        sorted_names(seg_views(final(v)@)),
        forall|d: Seq<char>|
            #[trigger] seg_views(final(v)@).contains(d) <==> seg_views(old(v)@).contains(d) || d == x@,
{
    let ghost ov = seg_views(v@);
    let mut j: usize = 0;
    while j < v.len() && name_lt(&v[j], &x)
        invariant
            ov == seg_views(v@),
            j <= v@.len(),
            forall|a: int| 0 <= a < j ==> lex_lt(#[trigger] ov[a], x@),
        decreases v.len() - j,
    {
        j = j + 1;
    }
    v.insert(j, x);
    proof {
        let nv = seg_views(v@);
        assert(nv =~= ov.insert(j as int, x@));
        if j < ov.len() {
            assert(!lex_lt(ov[j as int], x@));
            assert(ov[j as int] != x@);
            lemma_lex_total(ov[j as int], x@);
        }
        assert forall|a: int, b: int| 0 <= a < b < nv.len() implies lex_lt(#[trigger] nv[a], #[trigger] nv[b]) by {
            if b < j {
                assert(lex_lt(ov[a], ov[b]));
            } else if b == j {
                assert(lex_lt(ov[a], x@));
            } else if a < j {
                assert(lex_lt(ov[a], x@));
                assert(lex_lt(x@, ov[j as int]));
                if b - 1 > j {
                    assert(lex_lt(ov[j as int], ov[b - 1]));
                    lemma_lex_transitive(x@, ov[j as int], ov[b - 1]);
                }
                lemma_lex_transitive(ov[a], x@, ov[b - 1]);
            } else if a == j {
                if b - 1 > j {
                    assert(lex_lt(ov[j as int], ov[b - 1]));
                    lemma_lex_transitive(x@, ov[j as int], ov[b - 1]);
                }
            } else {
                assert(lex_lt(ov[a - 1], ov[b - 1]));
            }
        }
        assert forall|d: Seq<char>| #[trigger] nv.contains(d) <==> ov.contains(d) || d == x@ by {
            if nv.contains(d) {
                let k = choose|k: int| 0 <= k < nv.len() && nv[k] == d;
                if k < j {
                    assert(ov[k] == d);
                } else if k > j {
                    assert(ov[k - 1] == d);
                }
            }
            if ov.contains(d) {
                let k = choose|k: int| 0 <= k < ov.len() && ov[k] == d;
                if k < j {
                    assert(nv[k] == d);
                } else {
                    assert(nv[k + 1] == d);
                }
            }
            if d == x@ {
                assert(nv[j as int] == d);
            }
        }
    }
}

/// The views of a sequence of directories.
pub open spec fn dir_views(v: Seq<DirectoryPlan>) -> Seq<DirView> {
    v.map_values(|d: DirectoryPlan| d@)
}

/// Some directory of `ds` has the segments `p`.
pub open spec fn has_dir(ds: Seq<DirView>, p: Seq<Seq<char>>) -> bool {
    exists|i: int| 0 <= i < ds.len() && #[trigger] ds[i].segs == p
}

/// `p` is an initial part of `s` (possibly all of it, or nothing).
pub open spec fn is_prefix(p: Seq<Seq<char>>, s: Seq<Seq<char>>) -> bool {
    p.len() <= s.len() && p == s.subrange(0, p.len() as int)
}

/// Every initial part of `t`, from the root down to `t` itself, is a
/// directory of `ds`.
pub open spec fn prefixes_present(ds: Seq<DirView>, t: Seq<Seq<char>>) -> bool {
    forall|m: int| 0 <= m <= t.len() ==> #[trigger] has_dir(ds, t.subrange(0, m))
}

/// Every directory of `ds` is the root or lies on the path of a key of `e`.
pub open spec fn below_keys(ds: Seq<DirView>, e: Seq<(Seq<Seq<char>>, Seq<ResourceView>)>) -> bool {
    forall|i: int|
        0 <= i < ds.len() ==> (#[trigger] ds[i].segs).len() == 0 || exists|k: int|
            0 <= k < e.len() && #[trigger] is_prefix(ds[i].segs, e[k].0)
}

proof fn lemma_has_dir_kept(a: Seq<DirView>, b: Seq<DirView>, p: Seq<Seq<char>>)
    requires
        a.len() <= b.len(),
        forall|i: int| 0 <= i < a.len() ==> (#[trigger] b[i]).segs == a[i].segs,
        has_dir(a, p),
    ensures
        has_dir(b, p),
{
    let w = choose|w: int| 0 <= w < a.len() && #[trigger] a[w].segs == p;
    assert(b[w].segs == p);
}

/// No two directories have the same segments.
pub open spec fn segs_distinct(ds: Seq<DirView>) -> bool {
    forall|i: int, j: int| 0 <= i < j < ds.len() ==> ds[i].segs != ds[j].segs
}

/// Every directory but the root has its parent in `ds`, which lists it.
pub open spec fn parents_list(ds: Seq<DirView>) -> bool {
    forall|i: int|
        0 <= i < ds.len() && ds[i].segs.len() > 0 ==> exists|j: int|
            0 <= j < ds.len() && ds[j].segs == (#[trigger] ds[i].segs).drop_last()
                && ds[j].children.contains(ds[i].segs.last())
}

/// Every listed child is a directory of `ds`, listed once.
pub open spec fn children_exist(ds: Seq<DirView>) -> bool {
    forall|i: int|
        0 <= i < ds.len() ==> (#[trigger] ds[i].children).no_duplicates() && forall|c: Seq<char>|
            ds[i].children.contains(c) ==> has_dir(ds, #[trigger] ds[i].segs.push(c))
}

/// A consistent directory tree: the root is first, each directory appears
/// once, and the child lists agree with the directories present and are
/// sorted.
pub open spec fn tree_ok(ds: Seq<DirView>) -> bool {
    &&& ds.len() > 0
    &&& ds[0].segs == Seq::<Seq<char>>::empty()
    &&& segs_distinct(ds)
    &&& parents_list(ds)
    &&& children_exist(ds)
    &&& forall|i: int| 0 <= i < ds.len() ==> sorted_names(#[trigger] ds[i].children)
}

/// The directories whose segments are a key of `e` hold that key's
/// resources; the others hold no resources index.
pub open spec fn holds_index(ds: Seq<DirView>, e: Seq<(Seq<Seq<char>>, Seq<ResourceView>)>) -> bool {
    &&& forall|k: int| 0 <= k < e.len() ==> has_dir(ds, #[trigger] e[k].0)
    &&& forall|i: int, k: int|
        0 <= i < ds.len() && 0 <= k < e.len() && #[trigger] ds[i].segs == #[trigger] e[k].0
            ==> ds[i].resources == Some(e[k].1)
    &&& forall|i: int|
        0 <= i < ds.len() && (#[trigger] ds[i].resources) is Some ==> exists|k: int|
            0 <= k < e.len() && #[trigger] e[k].0 == ds[i].segs
}

/// The position of the directory with segments `segs`, if there is one.
fn find_dir(dirs: &Vec<DirectoryPlan>, segs: &Vec<String>) -> (r: Option<usize>)
    ensures
        r is Some ==> r->0 < dirs@.len() && dir_views(dirs@)[r->0 as int].segs == seg_views(segs@),
        r is None ==> !has_dir(dir_views(dirs@), seg_views(segs@)),
{
    let mut j: usize = 0;
    while j < dirs.len()
        invariant
            j <= dirs@.len(),
            forall|m: int| 0 <= m < j ==> #[trigger] dir_views(dirs@)[m].segs != seg_views(segs@),
        decreases dirs.len() - j,
    {
        if same_strings(&dirs[j].segments, segs) {
            return Some(j);
        }
        j = j + 1;
    }
    None
}

proof fn lemma_add_child(
    ds: Seq<DirView>,
    cur: int,
    c: Seq<char>,
    nc: Seq<Seq<char>>,
    nds: Seq<DirView>,
)
    requires
        tree_ok(ds),
        0 <= cur < ds.len(),
        !has_dir(ds, ds[cur].segs.push(c)),
        sorted_names(nc),
        forall|d: Seq<char>| #[trigger] nc.contains(d) <==> ds[cur].children.contains(d) || d == c,
        nds == ds.update(
            cur,
            DirView { segs: ds[cur].segs, resources: ds[cur].resources, children: nc },
        ).push(DirView { segs: ds[cur].segs.push(c), resources: None, children: Seq::empty() }),
    ensures
        tree_ok(nds),
{
    let q = ds[cur].segs.push(c);
    let n = ds.len() as int;
    assert(nds[n].segs == q);
    assert forall|i: int| 0 <= i < n implies #[trigger] nds[i].segs == ds[i].segs by {}
    assert(segs_distinct(nds)) by {
        assert forall|i: int, j: int| 0 <= i < j < nds.len() implies nds[i].segs != nds[j].segs by {
            if j < n {
                assert(ds[i].segs != ds[j].segs);
            } else {
                assert(ds[i].segs != q);
            }
        }
    }
    assert(parents_list(nds)) by {
        assert forall|i: int| 0 <= i < nds.len() && nds[i].segs.len() > 0 implies exists|j: int|
            0 <= j < nds.len() && nds[j].segs == (#[trigger] nds[i].segs).drop_last()
                && nds[j].children.contains(nds[i].segs.last()) by {
            if i < n {
                assert(ds[i].segs.len() > 0);
                let j = choose|j: int|
                    0 <= j < ds.len() && ds[j].segs == (#[trigger] ds[i].segs).drop_last()
                        && ds[j].children.contains(ds[i].segs.last());
                assert(nds[j].segs == ds[j].segs);
                assert(nds[i].segs == ds[i].segs);
                if j == cur {
                    assert(nc.contains(ds[i].segs.last()));
                    assert(nds[j].children == nc);
                } else {
                    assert(nds[j] == ds[j]);
                }
                assert(nds[j].children.contains(nds[i].segs.last()));
            } else {
                assert(q.drop_last() =~= ds[cur].segs);
                assert(nc.contains(c));
                assert(nds[cur].segs == ds[cur].segs);
                assert(nds[cur].children == nc);
                assert(nds[i].segs.last() == c);
                assert(nds[cur].segs == nds[i].segs.drop_last());
            }
        }
    }
    assert(children_exist(nds)) by {
        assert forall|i: int| 0 <= i < nds.len() implies (#[trigger] nds[i].children).no_duplicates()
            && forall|d: Seq<char>|
            nds[i].children.contains(d) ==> has_dir(nds, #[trigger] nds[i].segs.push(d)) by {
            if i == n {
                assert(nds[i].children.len() == 0);
            } else if i == cur {
                assert(!ds[cur].children.contains(c)) by {
                    if ds[cur].children.contains(c) {
                        assert(has_dir(ds, ds[cur].segs.push(c)));
                    }
                }
                lemma_sorted_distinct(nc);
                assert forall|d: Seq<char>| nds[i].children.contains(d) implies has_dir(
                    nds,
                    #[trigger] nds[i].segs.push(d),
                ) by {
                    if d == c {
                        assert(nds[n].segs == nds[i].segs.push(d));
                    } else {
                        assert(nc.contains(d));
                        assert(ds[cur].children.contains(d));
                        assert(has_dir(ds, ds[i].segs.push(d)));
                        let w = choose|w: int| 0 <= w < ds.len() && #[trigger] ds[w].segs == ds[i].segs.push(d);
                        assert(nds[w].segs == nds[i].segs.push(d));
                    }
                }
            } else {
                assert(nds[i] == ds[i]);
                assert forall|d: Seq<char>| nds[i].children.contains(d) implies has_dir(
                    nds,
                    #[trigger] nds[i].segs.push(d),
                ) by {
                    assert(has_dir(ds, ds[i].segs.push(d)));
                    let w = choose|w: int| 0 <= w < ds.len() && #[trigger] ds[w].segs == ds[i].segs.push(d);
                    assert(nds[w].segs == nds[i].segs.push(d));
                }
            }
        }
    }
}

proof fn lemma_same_shape(a: Seq<DirView>, b: Seq<DirView>)
    requires
        tree_ok(a),
        a.len() == b.len(),
        forall|i: int|
            0 <= i < a.len() ==> (#[trigger] b[i]).segs == a[i].segs && b[i].children == a[i].children,
    ensures
        tree_ok(b),
        forall|p: Seq<Seq<char>>| has_dir(a, p) ==> #[trigger] has_dir(b, p),
{
    assert forall|p: Seq<Seq<char>>| has_dir(a, p) implies #[trigger] has_dir(b, p) by {
        let w = choose|w: int| 0 <= w < a.len() && #[trigger] a[w].segs == p;
        assert(b[w].segs == p);
    }
    assert(segs_distinct(b)) by {
        assert forall|i: int, j: int| 0 <= i < j < b.len() implies b[i].segs != b[j].segs by {
            assert(a[i].segs != a[j].segs);
        }
    }
    assert(parents_list(b)) by {
        assert forall|i: int| 0 <= i < b.len() && b[i].segs.len() > 0 implies exists|j: int|
            0 <= j < b.len() && b[j].segs == (#[trigger] b[i].segs).drop_last()
                && b[j].children.contains(b[i].segs.last()) by {
            assert(a[i].segs.len() > 0);
            let j = choose|j: int|
                0 <= j < a.len() && a[j].segs == (#[trigger] a[i].segs).drop_last()
                    && a[j].children.contains(a[i].segs.last());
            assert(b[j].segs == b[i].segs.drop_last());
        }
    }
    assert(children_exist(b)) by {
        assert forall|i: int| 0 <= i < b.len() implies (#[trigger] b[i].children).no_duplicates()
            && forall|d: Seq<char>|
            b[i].children.contains(d) ==> has_dir(b, #[trigger] b[i].segs.push(d)) by {
            assert(a[i].children.no_duplicates());
            assert forall|d: Seq<char>| b[i].children.contains(d) implies has_dir(
                b,
                #[trigger] b[i].segs.push(d),
            ) by {
                assert(has_dir(a, a[i].segs.push(d)));
            }
        }
    }
}

/// Adds the directories along `segs` that `dirs` lacks, each listed in its
/// parent, and returns the position of the directory of `segs` itself.
fn ensure_path(dirs: &mut Vec<DirectoryPlan>, segs: &Vec<String>) -> (idx: usize)
    requires
        tree_ok(dir_views(old(dirs)@)),
    ensures
        tree_ok(dir_views(final(dirs)@)),
        idx < final(dirs)@.len(),
        dir_views(final(dirs)@)[idx as int].segs == seg_views(segs@),
        final(dirs)@.len() >= old(dirs)@.len(),
        forall|i: int|
            0 <= i < old(dirs)@.len() ==> (#[trigger] dir_views(final(dirs)@)[i]).segs
                == dir_views(old(dirs)@)[i].segs && dir_views(final(dirs)@)[i].resources
                == dir_views(old(dirs)@)[i].resources,
        forall|i: int|
            old(dirs)@.len() <= i < final(dirs)@.len() ==> (#[trigger] dir_views(final(dirs)@)[i]).resources is None,
        forall|i: int|
            old(dirs)@.len() <= i < final(dirs)@.len() ==> is_prefix(
                #[trigger] dir_views(final(dirs)@)[i].segs,
                seg_views(segs@),
            ),
        prefixes_present(dir_views(final(dirs)@), seg_views(segs@)),
{
    let ghost sv = seg_views(segs@);
    let ghost start = dir_views(dirs@);
    let mut cur: usize = 0;
    let mut prefix: Vec<String> = Vec::new();
    let mut k: usize = 0;
    proof {
        assert(seg_views(prefix@) =~= sv.subrange(0, 0));
        assert(start[0].segs =~= sv.subrange(0, 0));
        assert(has_dir(start, sv.subrange(0, 0)));
    }
    while k < segs.len()
        invariant
            sv == seg_views(segs@),
            k <= segs@.len(),
            tree_ok(dir_views(dirs@)),
            cur < dirs@.len(),
            seg_views(prefix@) == sv.subrange(0, k as int),
            dir_views(dirs@)[cur as int].segs == seg_views(prefix@),
            dirs@.len() >= start.len(),
            forall|i: int|
                0 <= i < start.len() ==> (#[trigger] dir_views(dirs@)[i]).segs == start[i].segs
                    && dir_views(dirs@)[i].resources == start[i].resources,
            forall|i: int|
                start.len() <= i < dirs@.len() ==> (#[trigger] dir_views(dirs@)[i]).resources is None,
            forall|i: int|
                start.len() <= i < dirs@.len() ==> is_prefix(#[trigger] dir_views(dirs@)[i].segs, sv),
            forall|m: int| 0 <= m <= k ==> #[trigger] has_dir(dir_views(dirs@), sv.subrange(0, m)),
        decreases segs.len() - k,
    {
        let name = segs[k].clone();
        let ghost p_old = seg_views(prefix@);
        prefix.push(name.clone());
        proof {
            assert(seg_views(prefix@) =~= p_old.push(name@));
            assert(sv.subrange(0, k + 1) =~= sv.subrange(0, k as int).push(name@));
        }
        match find_dir(dirs, &prefix) {
            Some(j) => {
                cur = j;
                assert(has_dir(dir_views(dirs@), sv.subrange(0, k + 1)));
            },
            None => {
                let ghost ds = dir_views(dirs@);
                proof {
                    if ds[cur as int].children.contains(name@) {
                        assert(has_dir(ds, ds[cur as int].segs.push(name@)));
                        assert(ds[cur as int].segs.push(name@) =~= seg_views(prefix@));
                    }
                }
                insert_sorted(&mut dirs[cur].children, name.clone());
                let nd = DirectoryPlan { segments: copy_strings(&prefix), resources: None, children: Vec::new() };
                dirs.push(nd);
                proof {
                    let nc = seg_views(dirs@[cur as int].children@);
                    let nds = ds.update(
                        cur as int,
                        DirView { segs: ds[cur as int].segs, resources: ds[cur as int].resources, children: nc },
                    ).push(DirView { segs: ds[cur as int].segs.push(name@), resources: None, children: Seq::empty() });
                    let now = dir_views(dirs@);
                    assert(now.len() == nds.len());
                    assert(seg_views(nd.children@) =~= Seq::<Seq<char>>::empty());
                    assert(forall|i: int| 0 <= i < nds.len() ==> #[trigger] now[i] == nds[i]);
                    assert(now =~= nds);
                    lemma_add_child(ds, cur as int, name@, nc, nds);
                    assert(now[ds.len() as int].segs == sv.subrange(0, k + 1));
                    assert forall|m: int| 0 <= m <= k + 1 implies #[trigger] has_dir(now, sv.subrange(0, m)) by {
                        if m <= k {
                            lemma_has_dir_kept(ds, now, sv.subrange(0, m));
                        }
                    }
                    assert forall|i: int| start.len() <= i < now.len() implies is_prefix(#[trigger] now[i].segs, sv) by {
                        if i < ds.len() {
                            assert(now[i].segs == ds[i].segs);
                        }
                    }
                }
                cur = dirs.len() - 1;
            },
        }
        k = k + 1;
    }
    proof {
        assert(sv.subrange(0, segs@.len() as int) =~= sv);
        assert(sv.subrange(0, 0) =~= Seq::<Seq<char>>::empty());
    }
    cur
}

proof fn lemma_step_cover(
    ds0: Seq<DirView>,
    ds1: Seq<DirView>,
    ds2: Seq<DirView>,
    e: Seq<(Seq<Seq<char>>, Seq<ResourceView>)>,
    k: int,
)
    requires
        0 <= k < e.len(),
        ds0.len() <= ds1.len(),
        ds1.len() == ds2.len(),
        forall|i: int| 0 <= i < ds0.len() ==> (#[trigger] ds1[i]).segs == ds0[i].segs,
        forall|i: int| 0 <= i < ds2.len() ==> #[trigger] ds2[i].segs == ds1[i].segs,
        forall|i: int| ds0.len() <= i < ds1.len() ==> is_prefix(#[trigger] ds1[i].segs, e[k].0),
        prefixes_present(ds1, e[k].0),
        below_keys(ds0, e.subrange(0, k)),
        forall|m: int| 0 <= m < k ==> prefixes_present(ds0, #[trigger] e[m].0),
    ensures
        below_keys(ds2, e.subrange(0, k + 1)),
        forall|m: int| 0 <= m <= k ==> prefixes_present(ds2, #[trigger] e[m].0),
{
    let ek = e.subrange(0, k + 1);
    assert forall|m: int| 0 <= m <= k implies prefixes_present(ds2, #[trigger] e[m].0) by {
        assert forall|n: int| 0 <= n <= e[m].0.len() implies #[trigger] has_dir(ds2, e[m].0.subrange(0, n)) by {
            if m < k {
                assert(has_dir(ds0, e[m].0.subrange(0, n)));
                lemma_has_dir_kept(ds0, ds1, e[m].0.subrange(0, n));
                lemma_has_dir_kept(ds1, ds2, e[m].0.subrange(0, n));
            } else {
                assert(has_dir(ds1, e[m].0.subrange(0, n)));
                lemma_has_dir_kept(ds1, ds2, e[m].0.subrange(0, n));
            }
        }
    }
    assert forall|i: int| 0 <= i < ds2.len() implies (#[trigger] ds2[i].segs).len() == 0 || exists|m: int|
        0 <= m < ek.len() && #[trigger] is_prefix(ds2[i].segs, ek[m].0) by {
        if i < ds0.len() {
            assert(ds2[i].segs == ds0[i].segs);
            if ds0[i].segs.len() != 0 {
                let m = choose|m: int| 0 <= m < k && #[trigger] is_prefix(ds0[i].segs, e.subrange(0, k)[m].0);
                assert(ek[m] == e.subrange(0, k)[m]);
                assert(is_prefix(ds2[i].segs, ek[m].0));
            }
        } else {
            assert(is_prefix(ds1[i].segs, e[k].0));
            assert(is_prefix(ds2[i].segs, ek[k].0));
        }
    }
}

proof fn lemma_step_index(
    ds0: Seq<DirView>,
    ds1: Seq<DirView>,
    ds2: Seq<DirView>,
    e: Seq<(Seq<Seq<char>>, Seq<ResourceView>)>,
    k: int,
    idx: int,
)
    requires
        keys_distinct(e),
        0 <= k < e.len(),
        0 <= idx < ds2.len(),
        ds0.len() <= ds1.len(),
        ds1.len() == ds2.len(),
        forall|i: int|
            0 <= i < ds0.len() ==> (#[trigger] ds1[i]).segs == ds0[i].segs && ds1[i].resources
                == ds0[i].resources,
        forall|i: int| ds0.len() <= i < ds1.len() ==> (#[trigger] ds1[i]).resources is None,
        forall|i: int| 0 <= i < ds2.len() && i != idx ==> #[trigger] ds2[i] == ds1[i],
        forall|i: int| 0 <= i < ds2.len() ==> #[trigger] ds2[i].segs == ds1[i].segs,
        ds2[idx].segs == e[k].0,
        ds2[idx].resources == Some(e[k].1),
        segs_distinct(ds2),
        holds_index(ds0, e.subrange(0, k)),
    ensures
        holds_index(ds2, e.subrange(0, k + 1)),
{
    let ek = e.subrange(0, k + 1);
    assert(holds_index(ds2, ek)) by {
        assert forall|m: int| 0 <= m < ek.len() implies has_dir(ds2, #[trigger] ek[m].0) by {
            if m < k {
                assert(ek[m] == e.subrange(0, k)[m]);
                let w = choose|w: int| 0 <= w < ds0.len() && #[trigger] ds0[w].segs == ek[m].0;
                assert(ds2[w].segs == ek[m].0);
            } else {
                assert(ds2[idx].segs == ek[m].0);
            }
        }
        assert forall|i: int, m: int|
            0 <= i < ds2.len() && 0 <= m < ek.len() && #[trigger] ds2[i].segs == #[trigger] ek[m].0
                implies ds2[i].resources == Some(ek[m].1) by {
            if i == idx {
                if m < k {
                    assert(e[m].0 != e[k].0);
                }
            } else if m < k {
                assert(ek[m] == e.subrange(0, k)[m]);
                let w = choose|w: int| 0 <= w < ds0.len() && #[trigger] ds0[w].segs == ek[m].0;
                assert(ds2[w].segs == ek[m].0);
                assert(segs_distinct(ds2));
                assert(w == i);
            } else {
                assert(segs_distinct(ds2));
            }
        }
        assert forall|i: int| 0 <= i < ds2.len() && (#[trigger] ds2[i].resources) is Some
            implies exists|m: int| 0 <= m < ek.len() && #[trigger] ek[m].0 == ds2[i].segs by {
            if i == idx {
                assert(ek[k].0 == ds2[i].segs);
            } else {
                assert(i < ds0.len());
                assert(ds1[i].resources == ds0[i].resources);
                let m = choose|m: int| 0 <= m < k && #[trigger] e.subrange(0, k)[m].0 == ds0[i].segs;
                assert(ek[m].0 == ds2[i].segs);
            }
        }
    }
}

/// Lays out the directory tree of a topic index: the root, every topic's
/// directory and all their ancestors, each once, with the child lists and the
/// resources indices that the tree and the index give them.
#[verifier::rlimit(100)]
pub fn plan_layout(index: &TopicIndex) -> (r: Vec<DirectoryPlan>)
    requires
        index.wf(),
    ensures
        tree_ok(dir_views(r@)),
        holds_index(dir_views(r@), index@),
        below_keys(dir_views(r@), index@),
        forall|k: int| 0 <= k < index@.len() ==> prefixes_present(dir_views(r@), #[trigger] index@[k].0),
{
    let entries = index.entries();
    let ghost e = entry_views(entries@);
    let mut dirs: Vec<DirectoryPlan> = Vec::new();
    dirs.push(DirectoryPlan { segments: Vec::new(), resources: None, children: Vec::new() });
    proof {
        let ds = dir_views(dirs@);
        assert(ds[0].segs =~= Seq::<Seq<char>>::empty());
        assert(ds[0].children =~= Seq::<Seq<char>>::empty());
    }
    let mut k: usize = 0;
    while k < entries.len()
        invariant
            e == entry_views(entries@),
            keys_distinct(e),
            k <= e.len(),
            tree_ok(dir_views(dirs@)),
            holds_index(dir_views(dirs@), e.subrange(0, k as int)),
            below_keys(dir_views(dirs@), e.subrange(0, k as int)),
            forall|m: int| 0 <= m < k ==> prefixes_present(dir_views(dirs@), #[trigger] e[m].0),
        decreases entries.len() - k,
    {
        let ghost ds0 = dir_views(dirs@);
        let segs = entries[k].0.segments();
        let idx = ensure_path(&mut dirs, &segs);
        let ghost ds1 = dir_views(dirs@);
        dirs[idx].resources = Some(copy_resources(&entries[k].1));
        proof {
            let ds2 = dir_views(dirs@);
            let ek = e.subrange(0, k + 1);
            assert(forall|i: int| 0 <= i < ds2.len() && i != idx ==> #[trigger] ds2[i] == ds1[i]);
            assert(ds2[idx as int].segs == e[k as int].0);
            assert(ds2[idx as int].resources == Some(e[k as int].1));
            assert(ds2[idx as int].children == ds1[idx as int].children);
            lemma_same_shape(ds1, ds2);
            assert(forall|i: int| 0 <= i < ds2.len() ==> #[trigger] ds2[i].segs == ds1[i].segs);
            lemma_step_cover(ds0, ds1, ds2, e, k as int);
            lemma_step_index(ds0, ds1, ds2, e, k as int, idx as int);
        }
        k = k + 1;
    }
    proof {
        assert(e.subrange(0, e.len() as int) =~= e);
    }
    dirs
}

/// The depth of the directory at position `i`: its number of segments.
pub open spec fn depth_at(dirs: Seq<DirectoryPlan>, i: int) -> nat {
    dirs[i].segments@.len()
}

/// The order in which to write the directories: every position once, the
/// deepest directories first, so that each directory is written after all
/// directories below it.
pub fn write_order(dirs: &Vec<DirectoryPlan>) -> (r: Vec<usize>)
    ensures
        r@.len() == dirs@.len(),
        r@.no_duplicates(),
        forall|k: int| 0 <= k < r@.len() ==> #[trigger] r@[k] < dirs@.len(),
        forall|i: int| 0 <= i < dirs@.len() ==> r@.contains(#[trigger] (i as usize)),
        forall|a: int, b: int| #![trigger r@[a], r@[b]]
             0 <= a < b < r@.len() ==> depth_at(dirs@, r@[a] as int) >= depth_at(dirs@, r@[b] as int),
{
    let n = dirs.len();
    let mut max_depth: usize = 0;
    let mut i: usize = 0;
    while i < n
        invariant
            n == dirs@.len(),
            i <= n,
            forall|j: int| 0 <= j < i ==> depth_at(dirs@, j) <= max_depth,
        decreases n - i,
    {
        if dirs[i].segments.len() > max_depth {
            max_depth = dirs[i].segments.len();
        }
        i = i + 1;
    }
    let mut r: Vec<usize> = Vec::new();
    let mut level: usize = max_depth;
    let mut more = true;
    while more
        invariant
            n == dirs@.len(),
            level <= max_depth,
            more ==> forall|k: int| 0 <= k < r@.len() ==> depth_at(dirs@, #[trigger] r@[k] as int) > level,
            more ==> forall|j: int| 0 <= j < n && depth_at(dirs@, j) > level ==> r@.contains(#[trigger] (j as usize)),
            !more ==> forall|j: int| 0 <= j < n ==> r@.contains(#[trigger] (j as usize)),
            forall|j: int| 0 <= j < n ==> depth_at(dirs@, j) <= max_depth,
            r@.no_duplicates(),
            forall|k: int| 0 <= k < r@.len() ==> #[trigger] r@[k] < n,
            forall|a: int, b: int| #![trigger r@[a], r@[b]]
                 0 <= a < b < r@.len() ==> depth_at(dirs@, r@[a] as int) >= depth_at(dirs@, r@[b] as int),
        decreases level as int + if more { 1int } else { 0int },
    {
        let mut j: usize = 0;
        let ghost start = r@;
        while j < n
            invariant
                n == dirs@.len(),
                j <= n,
                level <= max_depth,
                forall|m: int| 0 <= m < n ==> depth_at(dirs@, m) <= max_depth,
                r@.no_duplicates(),
                forall|k: int| 0 <= k < r@.len() ==> #[trigger] r@[k] < n,
                forall|k: int| 0 <= k < r@.len() ==> depth_at(dirs@, #[trigger] r@[k] as int) >= level,
                forall|k: int|
                    0 <= k < r@.len() && depth_at(dirs@, #[trigger] r@[k] as int) == level ==> r@[k] < j,
                forall|m: int| 0 <= m < n && depth_at(dirs@, m) > level ==> r@.contains(#[trigger] (m as usize)),
                forall|m: int| 0 <= m < j && depth_at(dirs@, m) == level ==> r@.contains(#[trigger] (m as usize)),
                forall|a: int, b: int| #![trigger r@[a], r@[b]]
                     0 <= a < b < r@.len() ==> depth_at(dirs@, r@[a] as int) >= depth_at(dirs@, r@[b] as int),
            decreases n - j,
        {
            if dirs[j].segments.len() == level {
                let ghost before = r@;
                r.push(j);
                proof {
                    assert(r@.last() == j);
                    assert forall|m: int| 0 <= m < n && depth_at(dirs@, m) > level implies r@.contains(m as usize) by {
                        let k = choose|k: int| 0 <= k < before.len() && before[k] == m as usize;
                        assert(r@[k] == m as usize);
                    }
                    assert forall|m: int| 0 <= m <= j && depth_at(dirs@, m) == level implies r@.contains(m as usize) by {
                        if m < j {
                            let k = choose|k: int| 0 <= k < before.len() && before[k] == m as usize;
                            assert(r@[k] == m as usize);
                        } else {
                            assert(r@[before.len() as int] == m as usize);
                        }
                    }
                    assert forall|a: int, b: int| 0 <= a < b < r@.len() implies r@[a] != r@[b] by {
                        if b == before.len() {
                            if depth_at(dirs@, before[a] as int) == level {
                                assert(before[a] < j);
                            }
                        } else {
                            assert(before[a] != before[b]);
                        }
                    }
                }
            }
            j = j + 1;
        }
        if level == 0 {
            more = false;
        } else {
            level = level - 1;
        }
    }
    proof {
        let rs = r@.to_set();
        assert forall|x: usize| rs.contains(x) <==> x < n by {
            if x < n {
                let j: int = x as int;
                assert(r@.contains(j as usize));
            }
            if rs.contains(x) {
                let k = choose|k: int| 0 <= k < r@.len() && r@[k] == x;
                assert(r@[k] < n);
            }
        }
        assert(rs =~= Set::new(|x: usize| x < n));
        r@.unique_seq_to_set();
        lemma_usize_range_len(n);
    }
    r
}

proof fn lemma_usize_range_len(n: usize)
    ensures
        Set::new(|x: usize| x < n).finite(),
        Set::new(|x: usize| x < n).len() == n,
    decreases n,
{
    if n == 0 {
        assert(Set::new(|x: usize| x < n) =~= Set::<usize>::empty());
    } else {
        lemma_usize_range_len((n - 1) as usize);
        assert(Set::new(|x: usize| x < n) =~= Set::new(|x: usize| x < (n - 1) as usize).insert(
            (n - 1) as usize,
        ));
    }
}

} // verus!
