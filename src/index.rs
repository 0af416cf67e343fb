use vstd::prelude::*;
use crate::resource::{resource_views, Resource, ResourceView};
use crate::topic::{topic_views, Topic};

verus! {

/// The copies of `r` that a resource tagged with `topics` contributes to the
/// bucket of `t`: one for each occurrence of `t` among them.
pub open spec fn tagged(topics: Seq<Seq<Seq<char>>>, t: Seq<Seq<char>>, r: ResourceView) -> Seq<
    ResourceView,
>
    decreases topics.len(),
{
    if topics.len() == 0 {
        Seq::empty()
    } else {
        tagged(topics.drop_last(), t, r) + if topics.last() == t {
            seq![r]
        } else {
            Seq::empty()
        }
    }
}

/// The resources tagged with `t`, in row order.
pub open spec fn bucket_of(rows: Seq<(Seq<Seq<Seq<char>>>, ResourceView)>, t: Seq<Seq<char>>) -> Seq<
    ResourceView,
>
    decreases rows.len(),
{
    if rows.len() == 0 {
        Seq::empty()
    } else {
        bucket_of(rows.drop_last(), t) + tagged(rows.last().0, t, rows.last().1)
    }
}

/// The views of parsed rows.
pub open spec fn parsed_views(rows: Seq<(Vec<Topic>, Resource)>) -> Seq<
    (Seq<Seq<Seq<char>>>, ResourceView),
> {
    rows.map_values(|p: (Vec<Topic>, Resource)| (topic_views(p.0@), p.1@))
}

/// The views of index entries.
pub open spec fn entry_views(e: Seq<(Topic, Vec<Resource>)>) -> Seq<
    (Seq<Seq<char>>, Seq<ResourceView>),
> {
    e.map_values(|p: (Topic, Vec<Resource>)| (p.0@, resource_views(p.1@)))
}

/// No topic has two entries.
pub open spec fn keys_distinct(e: Seq<(Seq<Seq<char>>, Seq<ResourceView>)>) -> bool {
    forall|i: int, j: int| 0 <= i < j < e.len() ==> e[i].0 != e[j].0
}

/// `e` is the topic index of `rows`: one entry for each topic with a
/// nonempty bucket, holding that bucket.
pub open spec fn indexes(
    e: Seq<(Seq<Seq<char>>, Seq<ResourceView>)>,
    rows: Seq<(Seq<Seq<Seq<char>>>, ResourceView)>,
) -> bool {
    &&& keys_distinct(e)
    &&& forall|i: int| 0 <= i < e.len() ==> #[trigger] e[i].1 == bucket_of(rows, e[i].0)
    &&& forall|t: Seq<Seq<char>>|
        (exists|i: int| 0 <= i < e.len() && e[i].0 == t) <==> #[trigger] bucket_of(rows, t).len() > 0
}

/// The mapping from each topic to the resources tagged with it, in row order.
pub struct TopicIndex {
    entries: Vec<(Topic, Vec<Resource>)>,
}

impl View for TopicIndex {
    type V = Seq<(Seq<Seq<char>>, Seq<ResourceView>)>;

    closed spec fn view(&self) -> Self::V {
        entry_views(self.entries@)
    }
}

/// The position of the entry for `t`, if there is one.
fn find_entry(entries: &Vec<(Topic, Vec<Resource>)>, t: &Topic) -> (r: Option<usize>)
    ensures
        r is Some ==> r->0 < entries@.len() && entry_views(entries@)[r->0 as int].0 == t@,
        r is None ==> forall|j: int|
            0 <= j < entries@.len() ==> #[trigger] entry_views(entries@)[j].0 != t@,
{
    let mut j: usize = 0;
    while j < entries.len()
        invariant
            j <= entries@.len(),
            forall|m: int| 0 <= m < j ==> #[trigger] entry_views(entries@)[m].0 != t@,
        decreases entries.len() - j,
    {
        if entries[j].0.same(t) {
            return Some(j);
        }
        j = j + 1;
    }
    None
}

impl TopicIndex {
    /// Well formed: each topic has at most one entry.
    pub open spec fn wf(&self) -> bool {
        keys_distinct(self@)
    }

    /// The entries, one for each topic, in the order of first appearance.
    pub fn entries(&self) -> (r: &Vec<(Topic, Vec<Resource>)>)
        ensures
            entry_views(r@) == self@,
    {
        &self.entries
    }

    /// Groups the parsed rows by topic: a resource tagged with several topics
    /// lands in each of their buckets, and once for each time a topic is
    /// repeated.
    pub fn build(parsed: &Vec<(Vec<Topic>, Resource)>) -> (r: TopicIndex)
        ensures
            r.wf(),
            indexes(r@, parsed_views(parsed@)),
    {
        let ghost rows = parsed_views(parsed@);
        let mut entries: Vec<(Topic, Vec<Resource>)> = Vec::new();
        let mut i: usize = 0;
        while i < parsed.len()
            invariant
                i <= parsed.len(),
                rows == parsed_views(parsed@),
                indexes(entry_views(entries@), rows.subrange(0, i as int)),
            decreases parsed.len() - i,
        {
            let topics = &parsed[i].0;
            let res = &parsed[i].1;
            let ghost prev = rows.subrange(0, i as int);
            let ghost tv = topic_views(topics@);
            proof {
                assert(rows.subrange(0, i + 1).drop_last() =~= prev);
                assert(rows.subrange(0, i + 1).last() == (tv, res@));
            }
            let mut k: usize = 0;
            while k < topics.len()
                invariant
                    k <= topics.len(),
                    tv == topic_views(topics@),
                    keys_distinct(entry_views(entries@)),
                    forall|j: int|
                        0 <= j < entries@.len() ==> #[trigger] entry_views(entries@)[j].1 == bucket_of(
                            prev,
                            entry_views(entries@)[j].0,
                        ) + tagged(tv.subrange(0, k as int), entry_views(entries@)[j].0, res@),
                    forall|t: Seq<Seq<char>>|
                        (exists|j: int| 0 <= j < entries@.len() && entry_views(entries@)[j].0 == t)
                            <==> #[trigger] (bucket_of(prev, t) + tagged(
                            tv.subrange(0, k as int),
                            t,
                            res@,
                        )).len() > 0,
                decreases topics.len() - k,
            {
                let t = &topics[k];
                let ghost old_e = entry_views(entries@);
                proof {
                    assert(tv.subrange(0, k + 1).drop_last() =~= tv.subrange(0, k as int));
                    assert(tv.subrange(0, k + 1).last() == t@);
                    assert forall|s: Seq<Seq<char>>|
                        #[trigger] tagged(tv.subrange(0, k + 1), s, res@) == tagged(
                            tv.subrange(0, k as int),
                            s,
                            res@,
                        ) + if t@ == s {
                            seq![res@]
                        } else {
                            Seq::empty()
                        } by {}
                }
                match find_entry(&entries, t) {
                    Some(j) => {
                        entries[j].1.push(res.duplicate());
                        proof {
                            let new_e = entry_views(entries@);
                            assert(new_e[j as int].1 =~= old_e[j as int].1.push(res@));
                            assert(forall|m: int|
                                0 <= m < new_e.len() && m != j ==> #[trigger] new_e[m] == old_e[m]);
                            assert forall|s: Seq<Seq<char>>|
                                (exists|m: int| 0 <= m < entries@.len() && new_e[m].0 == s)
                                    <==> #[trigger] (bucket_of(prev, s) + tagged(
                                    tv.subrange(0, k + 1),
                                    s,
                                    res@,
                                )).len() > 0 by {
                                if exists|m: int| 0 <= m < entries@.len() && old_e[m].0 == s {
                                    let m = choose|m: int| 0 <= m < entries@.len() && old_e[m].0 == s;
                                    assert(new_e[m].0 == s);
                                }
                                if exists|m: int| 0 <= m < entries@.len() && new_e[m].0 == s {
                                    let m = choose|m: int| 0 <= m < entries@.len() && new_e[m].0 == s;
                                    assert(old_e[m].0 == s);
                                }
                            }
                        }
                    },
                    None => {
                        let mut bucket: Vec<Resource> = Vec::new();
                        bucket.push(res.duplicate());
                        entries.push((t.duplicate(), bucket));
                        proof {
                            let new_e = entry_views(entries@);
                            assert(new_e.drop_last() =~= old_e);
                            assert(new_e.last().1 =~= seq![res@]);
                            assert(!(exists|m: int| 0 <= m < old_e.len() && old_e[m].0 == t@));
                            assert((bucket_of(prev, t@) + tagged(tv.subrange(0, k as int), t@, res@)).len() == 0);
                            assert(keys_distinct(new_e)) by {
                                assert forall|a: int, b: int| 0 <= a < b < new_e.len() implies new_e[a].0 != new_e[b].0 by {
                                    if b < old_e.len() {
                                        assert(old_e[a].0 != old_e[b].0);
                                    } else {
                                        assert(old_e[a].0 != t@);
                                    }
                                }
                            }
                            assert forall|s: Seq<Seq<char>>|
                                (exists|m: int| 0 <= m < entries@.len() && new_e[m].0 == s)
                                    <==> #[trigger] (bucket_of(prev, s) + tagged(
                                    tv.subrange(0, k + 1),
                                    s,
                                    res@,
                                )).len() > 0 by {
                                if exists|m: int| 0 <= m < old_e.len() && old_e[m].0 == s {
                                    let m = choose|m: int| 0 <= m < old_e.len() && old_e[m].0 == s;
                                    assert(new_e[m].0 == s);
                                }
                                if exists|m: int| 0 <= m < entries@.len() && new_e[m].0 == s {
                                    let m = choose|m: int| 0 <= m < entries@.len() && new_e[m].0 == s;
                                    if m < old_e.len() {
                                        assert(old_e[m].0 == s);
                                    }
                                }
                                if s == t@ {
                                    assert(new_e[old_e.len() as int].0 == s);
                                }
                            }
                        }
                    },
                }
                k = k + 1;
            }
            proof {
                assert(tv.subrange(0, topics@.len() as int) =~= tv);
                assert(rows.subrange(0, i + 1).drop_last() =~= prev);
                assert(rows.subrange(0, i + 1).last() == (tv, res@));
                assert forall|s: Seq<Seq<char>>|
                    #[trigger] bucket_of(rows.subrange(0, i + 1), s) == bucket_of(prev, s) + tagged(tv, s, res@) by {}
            }
            i = i + 1;
        }
        proof {
            assert(rows.subrange(0, parsed@.len() as int) =~= rows);
        }
        TopicIndex { entries }
    }
}

} // verus!
