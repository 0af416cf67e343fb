use vstd::prelude::*;
use crate::index::{bucket_of, indexes, parsed_views, TopicIndex};
use crate::layout::{below_keys, dir_views, has_dir, holds_index, is_prefix, plan_layout, prefixes_present, sorted_names, tree_ok, DirView, DirectoryPlan};
use crate::resource::{Resource, ResourceView};
use crate::row::{kind_spec, parse_row, row_outcome, topics_of, ResourceKind, ResourceRow, ValidationError, ValidationProblem};
use crate::topic::{topic_views, Topic};

verus! {

/// A rejected row of the input table: its position and what is wrong with it.
#[derive(Clone, Debug, PartialEq)]
pub struct RowError {
    pub row: usize,
    pub error: ValidationError,
}

/// Every row of the table is valid.
pub open spec fn rows_ok(rows: Seq<ResourceRow>) -> bool {
    forall|i: int| 0 <= i < rows.len() ==> (#[trigger] row_outcome(rows[i])) is Ok
}

/// The topics and the resource of each row, in row order.
pub open spec fn rows_parsed(rows: Seq<ResourceRow>) -> Seq<(Seq<Seq<Seq<char>>>, ResourceView)> {
    rows.map_values(|r: ResourceRow| (topics_of(r.topics@), row_outcome(r)->Ok_0))
}

/// `e` reports the first invalid row of `rows`.
pub open spec fn first_error(rows: Seq<ResourceRow>, e: RowError) -> bool {
    &&& e.row < rows.len()
    &&& row_outcome(rows[e.row as int]) is Err
    &&& e.error.problem == row_outcome(rows[e.row as int])->Err_0
    &&& e.error.row_name@ == rows[e.row as int].name@
    &&& forall|j: int| 0 <= j < e.row ==> (#[trigger] row_outcome(rows[j])) is Ok
}

/// Each directory holds the resources index of its topic exactly when some
/// row is tagged with that topic, and each tagged topic has a directory.
pub open spec fn presents(ds: Seq<DirView>, rows: Seq<(Seq<Seq<Seq<char>>>, ResourceView)>) -> bool {
    &&& forall|i: int|
        0 <= i < ds.len() ==> (#[trigger] ds[i]).resources == if bucket_of(rows, ds[i].segs).len()
            > 0 {
            Some(bucket_of(rows, ds[i].segs))
        } else {
            None
        }
    &&& forall|t: Seq<Seq<char>>| #[trigger] bucket_of(rows, t).len() > 0 ==> has_dir(ds, t)
}

/// The directories are exactly the root, the tagged topics and their
/// ancestors.
pub open spec fn spans_topics(ds: Seq<DirView>, rows: Seq<(Seq<Seq<Seq<char>>>, ResourceView)>) -> bool {
    &&& forall|t: Seq<Seq<char>>| #[trigger] bucket_of(rows, t).len() > 0 ==> prefixes_present(ds, t)
    &&& forall|i: int|
        0 <= i < ds.len() ==> (#[trigger] ds[i].segs).len() == 0 || exists|t: Seq<Seq<char>>|
            #[trigger] bucket_of(rows, t).len() > 0 && is_prefix(ds[i].segs, t)
}

/// The directory tree of a successful run over `rows`.
pub open spec fn layout_of(ds: Seq<DirView>, rows: Seq<(Seq<Seq<Seq<char>>>, ResourceView)>) -> bool {
    tree_ok(ds) && presents(ds, rows) && spans_topics(ds, rows)
}

/// Parses every row, stopping at the first invalid one.
pub fn parse_rows(rows: &Vec<ResourceRow>) -> (r: Result<Vec<(Vec<Topic>, Resource)>, RowError>)
    ensures
        r is Ok <==> rows_ok(rows@),
        r is Ok ==> parsed_views(r->Ok_0@) == rows_parsed(rows@),
        r is Err ==> first_error(rows@, r->Err_0),
{
    let mut out: Vec<(Vec<Topic>, Resource)> = Vec::new();
    let mut i: usize = 0;
    while i < rows.len()
        invariant
            i <= rows@.len(),
            forall|j: int| 0 <= j < i ==> (#[trigger] row_outcome(rows@[j])) is Ok,
            parsed_views(out@) == rows_parsed(rows@.subrange(0, i as int)),
        decreases rows.len() - i,
    {
        match parse_row(&rows[i]) {
            Ok(p) => {
                let ghost before = out@;
                let ghost pv = (topic_views(p.0@), p.1@);
                out.push(p);
                proof {
                    assert(parsed_views(out@) =~= parsed_views(before).push(pv));
                    assert(rows_parsed(rows@.subrange(0, i + 1)) =~= rows_parsed(
                        rows@.subrange(0, i as int),
                    ).push(pv));
                }
            },
            Err(error) => {
                return Err(RowError { row: i, error });
            },
        }
        i = i + 1;
    }
    proof {
        assert(rows@.subrange(0, rows@.len() as int) =~= rows@);
    }
    Ok(out)
}

proof fn lemma_presents(ds: Seq<DirView>, e: Seq<(Seq<Seq<char>>, Seq<ResourceView>)>, rows: Seq<
    (Seq<Seq<Seq<char>>>, ResourceView),
>)
    requires
        tree_ok(ds),
        holds_index(ds, e),
        indexes(e, rows),
        below_keys(ds, e),
        forall|k: int| 0 <= k < e.len() ==> prefixes_present(ds, #[trigger] e[k].0),
    ensures
        presents(ds, rows),
        spans_topics(ds, rows),
{
    assert forall|t: Seq<Seq<char>>| #[trigger] bucket_of(rows, t).len() > 0 implies prefixes_present(ds, t) by {
        let k = choose|k: int| 0 <= k < e.len() && e[k].0 == t;
        assert(prefixes_present(ds, e[k].0));
    }
    assert forall|i: int| 0 <= i < ds.len() implies (#[trigger] ds[i].segs).len() == 0 || exists|t: Seq<Seq<char>>|
        #[trigger] bucket_of(rows, t).len() > 0 && is_prefix(ds[i].segs, t) by {
        if ds[i].segs.len() != 0 {
            let k = choose|k: int| 0 <= k < e.len() && #[trigger] is_prefix(ds[i].segs, e[k].0);
            assert(e[k].1 == bucket_of(rows, e[k].0));
            assert(exists|j: int| 0 <= j < e.len() && e[j].0 == e[k].0);
            assert(bucket_of(rows, e[k].0).len() > 0);
        }
    }
    assert forall|i: int| 0 <= i < ds.len() implies (#[trigger] ds[i]).resources == if bucket_of(
        rows,
        ds[i].segs,
    ).len() > 0 {
        Some(bucket_of(rows, ds[i].segs))
    } else {
        None
    } by {
        if bucket_of(rows, ds[i].segs).len() > 0 {
            let k = choose|k: int| 0 <= k < e.len() && e[k].0 == ds[i].segs;
            assert(ds[i].resources == Some(e[k].1));
            assert(e[k].1 == bucket_of(rows, e[k].0));
        } else {
            if ds[i].resources is Some {
                let k = choose|k: int| 0 <= k < e.len() && #[trigger] e[k].0 == ds[i].segs;
                assert(bucket_of(rows, e[k].0).len() > 0);
            }
        }
    }
    assert forall|t: Seq<Seq<char>>| #[trigger] bucket_of(rows, t).len() > 0 implies has_dir(ds, t) by {
        let k = choose|k: int| 0 <= k < e.len() && e[k].0 == t;
        assert(has_dir(ds, e[k].0));
    }
}

/// The whole generation: parses the rows, groups the resources by topic and
/// lays out the directory tree. An invalid row fails the whole run, and no
/// directory is laid out.
pub fn generate(rows: &Vec<ResourceRow>) -> (r: Result<Vec<DirectoryPlan>, RowError>)
    ensures
        r is Ok <==> rows_ok(rows@),
        r is Ok ==> layout_of(dir_views(r->Ok_0@), rows_parsed(rows@)),
        r is Err ==> first_error(rows@, r->Err_0),
{
    let parsed = match parse_rows(rows) {
        Ok(p) => p,
        Err(e) => {
            return Err(e);
        },
    };
    let index = TopicIndex::build(&parsed);
    let plan = plan_layout(&index);
    proof {
        lemma_presents(dir_views(plan@), index@, rows_parsed(rows@));
    }
    Ok(plan)
}

/// After a successful run, a topic that some row is tagged with has exactly
/// one directory, and its resources index holds the resources tagged with
/// that topic, in row order.
pub proof fn lemma_topic_resources_exact(
    ds: Seq<DirView>,
    rows: Seq<(Seq<Seq<Seq<char>>>, ResourceView)>,
    t: Seq<Seq<char>>,
)
    requires
        layout_of(ds, rows),
        bucket_of(rows, t).len() > 0,
    ensures
        exists|i: int|
            0 <= i < ds.len() && ds[i].segs == t && ds[i].resources == Some(bucket_of(rows, t)),
        forall|i: int, j: int|
            0 <= i < ds.len() && 0 <= j < ds.len() && ds[i].segs == t && ds[j].segs == t ==> i == j,
{
    assert(has_dir(ds, t));
    let i = choose|i: int| 0 <= i < ds.len() && #[trigger] ds[i].segs == t;
    assert(ds[i].resources == Some(bucket_of(rows, t)));
    assert forall|a: int, b: int|
        0 <= a < ds.len() && 0 <= b < ds.len() && ds[a].segs == t && ds[b].segs == t implies a == b by {
        if a < b {
            assert(ds[a].segs != ds[b].segs);
        } else if b < a {
            assert(ds[b].segs != ds[a].segs);
        }
    }
}

/// In a laid-out tree, the child-topics index of every directory lists, once
/// each and in lexicographic order, exactly the names of its immediate
/// subdirectories, and every
/// directory but the root sits below another directory of the tree.
pub proof fn lemma_children_exact(ds: Seq<DirView>)
    requires
        tree_ok(ds),
    ensures
        forall|i: int, c: Seq<char>|
            0 <= i < ds.len() ==> (ds[i].children.contains(c) <==> has_dir(
                ds,
                #[trigger] ds[i].segs.push(c),
            )),
        forall|i: int| 0 <= i < ds.len() ==> (#[trigger] ds[i].children).no_duplicates(),
        forall|i: int| 0 <= i < ds.len() ==> sorted_names(#[trigger] ds[i].children),
        forall|i: int|
            0 <= i < ds.len() && ds[i].segs.len() > 0 ==> has_dir(ds, (#[trigger] ds[i].segs).drop_last()),
{
    assert forall|i: int, c: Seq<char>|
        0 <= i < ds.len() implies (ds[i].children.contains(c) <==> has_dir(
            ds,
            #[trigger] ds[i].segs.push(c),
        )) by {
        if has_dir(ds, ds[i].segs.push(c)) {
            let j = choose|j: int| 0 <= j < ds.len() && #[trigger] ds[j].segs == ds[i].segs.push(c);
            assert(ds[j].segs.len() > 0);
            let p = choose|p: int|
                0 <= p < ds.len() && ds[p].segs == (#[trigger] ds[j].segs).drop_last()
                    && ds[p].children.contains(ds[j].segs.last());
            assert(ds[j].segs.drop_last() =~= ds[i].segs);
            if p != i {
                if p < i {
                    assert(ds[p].segs != ds[i].segs);
                } else {
                    assert(ds[i].segs != ds[p].segs);
                }
            }
        }
    }
    assert forall|i: int| 0 <= i < ds.len() && ds[i].segs.len() > 0 implies has_dir(
        ds,
        (#[trigger] ds[i].segs).drop_last(),
    ) by {
        let p = choose|p: int|
            0 <= p < ds.len() && ds[p].segs == (#[trigger] ds[i].segs).drop_last()
                && ds[p].children.contains(ds[i].segs.last());
    }
}

/// After a successful run, a directory lists a child name exactly when the
/// directory's path followed by that name begins some tagged topic: the root
/// lists the first segments of the tagged topics, and nothing else.
pub proof fn lemma_children_are_next_segments(
    ds: Seq<DirView>,
    rows: Seq<(Seq<Seq<Seq<char>>>, ResourceView)>,
    i: int,
    c: Seq<char>,
)
    requires
        tree_ok(ds),
        spans_topics(ds, rows),
        0 <= i < ds.len(),
    ensures
        ds[i].children.contains(c) <==> exists|t: Seq<Seq<char>>|
            #[trigger] bucket_of(rows, t).len() > 0 && is_prefix(ds[i].segs.push(c), t),
{
    let p = ds[i].segs.push(c);
    if ds[i].children.contains(c) {
        assert(has_dir(ds, ds[i].segs.push(c)));
        let j = choose|j: int| 0 <= j < ds.len() && #[trigger] ds[j].segs == p;
        assert(ds[j].segs.len() > 0);
        assert(exists|t: Seq<Seq<char>>| #[trigger] bucket_of(rows, t).len() > 0 && is_prefix(ds[j].segs, t));
    }
    if exists|t: Seq<Seq<char>>| #[trigger] bucket_of(rows, t).len() > 0 && is_prefix(p, t) {
        let t = choose|t: Seq<Seq<char>>| #[trigger] bucket_of(rows, t).len() > 0 && is_prefix(p, t);
        assert(prefixes_present(ds, t));
        assert(t.subrange(0, p.len() as int) == p);
        assert(has_dir(ds, t.subrange(0, p.len() as int)));
        let j = choose|j: int| 0 <= j < ds.len() && #[trigger] ds[j].segs == p;
        assert(ds[j].segs.len() > 0);
        let q = choose|q: int|
            0 <= q < ds.len() && ds[q].segs == (#[trigger] ds[j].segs).drop_last()
                && ds[q].children.contains(ds[j].segs.last());
        assert(p.drop_last() =~= ds[i].segs);
        if q != i {
            if q < i {
                assert(ds[q].segs != ds[i].segs);
            } else {
                assert(ds[i].segs != ds[q].segs);
            }
        }
    }
}

/// A row declared as a file that carries both a file name and a link is
/// rejected, and a table that holds such a row is not valid, so a run over it
/// fails and lays out nothing.
pub proof fn lemma_file_with_link_rejected(rows: Seq<ResourceRow>, i: int)
    requires
        0 <= i < rows.len(),
        kind_spec(rows[i].resource_type@) == Some(ResourceKind::File),
        rows[i].filename is Some,
        rows[i].link is Some,
    ensures
        row_outcome(rows[i]) == Err::<ResourceView, ValidationProblem>(ValidationProblem::FileFields),
        !rows_ok(rows),
{
}

} // verus!
