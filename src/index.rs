use vstd::prelude::*;

verus! {

/// A record of one regular file seen by the last scan: its path and the
/// digest of its content.
pub struct FileRecord {
    pub path: String,
    pub digest: String,
}

impl View for FileRecord {
    type V = (Seq<char>, Seq<char>);

    open spec fn view(&self) -> (Seq<char>, Seq<char>) {
        (self.path@, self.digest@)
    }
}

impl FileRecord {
    pub fn new(path: String, digest: String) -> (r: FileRecord)
        ensures
            r@ == (path@, digest@),
    {
        FileRecord { path, digest }
    }

    fn duplicate(&self) -> (r: FileRecord)
        ensures
            r@ == self@,
    {
        FileRecord { path: self.path.clone(), digest: self.digest.clone() }
    }
}

/// Files that share one digest, in the order the index holds them.
pub struct DuplicateGroup {
    pub digest: String,
    pub members: Vec<String>,
}

/// The views of a sequence of strings.
pub open spec fn strings_view(v: Seq<String>) -> Seq<Seq<char>> {
    v.map_values(|s: String| s@)
}

impl View for DuplicateGroup {
    type V = (Seq<char>, Seq<Seq<char>>);

    open spec fn view(&self) -> (Seq<char>, Seq<Seq<char>>) {
        (self.digest@, strings_view(self.members@))
    }
}

/// The paths recorded under digest `d`, in record order.
pub open spec fn paths_in(recs: Seq<(Seq<char>, Seq<char>)>, d: Seq<char>) -> Seq<Seq<char>>
    decreases recs.len(),
{
    if recs.len() == 0 {
        Seq::empty()
    } else {
        let rest = paths_in(recs.drop_last(), d);
        if recs.last().1 == d {
            rest.push(recs.last().0)
        } else {
            rest
        }
    }
}

/// The records left once every record for path `p` is taken out.
pub open spec fn without_path(recs: Seq<(Seq<char>, Seq<char>)>, p: Seq<char>) -> Seq<
    (Seq<char>, Seq<char>),
>
    decreases recs.len(),
{
    if recs.len() == 0 {
        Seq::empty()
    } else {
        let rest = without_path(recs.drop_last(), p);
        if recs.last().0 == p {
            rest
        } else {
            rest.push(recs.last())
        }
    }
}

/// The records left once every record for a path in `ps` is taken out.
pub open spec fn without_paths(recs: Seq<(Seq<char>, Seq<char>)>, ps: Seq<Seq<char>>) -> Seq<
    (Seq<char>, Seq<char>),
>
    decreases ps.len(),
{
    if ps.len() == 0 {
        recs
    } else {
        without_path(without_paths(recs, ps.drop_last()), ps.last())
    }
}

/// A group is exactly the paths recorded under its digest, and has at least two.
pub open spec fn group_matches(recs: Seq<(Seq<char>, Seq<char>)>, g: (Seq<char>, Seq<Seq<char>>)) -> bool {
    &&& g.1 == paths_in(recs, g.0)
    &&& g.1.len() >= 2
}

/// Some group in `gs` is for digest `d`.
pub open spec fn has_group(gs: Seq<DuplicateGroup>, d: Seq<char>) -> bool {
    exists|j: int| 0 <= j < gs.len() && (#[trigger] gs[j]).digest@ == d
}

/// What the grouping of `recs` owes: each group matches the records, no two
/// groups share a digest, and each digest held by two or more records has a group.
pub open spec fn groups_of(recs: Seq<(Seq<char>, Seq<char>)>, gs: Seq<DuplicateGroup>) -> bool {
    &&& forall|j: int| 0 <= j < gs.len() ==> group_matches(recs, #[trigger] gs[j]@)
    &&& forall|j1: int, j2: int|
        0 <= j1 < gs.len() && 0 <= j2 < gs.len() && j1 != j2 ==> (#[trigger] gs[j1]).digest@
            != (#[trigger] gs[j2]).digest@
    &&& forall|k: int|
        0 <= k < recs.len() && paths_in(recs, (#[trigger] recs[k]).1).len() >= 2 ==> has_group(
            gs,
            recs[k].1,
        )
}

proof fn lemma_paths_in_has(recs: Seq<(Seq<char>, Seq<char>)>, d: Seq<char>, k: int)
    requires
        0 <= k < recs.len(),
        recs[k].1 == d,
    ensures
        paths_in(recs, d).len() >= paths_in(recs.subrange(0, k), d).len() + 1,
        paths_in(recs, d).contains(recs[k].0),
    decreases recs.len(),
{
    let rest = recs.drop_last();
    if k == recs.len() - 1 {
        assert(rest =~= recs.subrange(0, k));
        assert(paths_in(recs, d) == paths_in(rest, d).push(recs[k].0));
        assert(paths_in(recs, d)[paths_in(rest, d).len() as int] == recs[k].0);
    } else {
        lemma_paths_in_has(rest, d, k);
        assert(rest.subrange(0, k) =~= recs.subrange(0, k));
        assert(rest[k] == recs[k]);
        let w = choose|w: int| 0 <= w < paths_in(rest, d).len() && paths_in(rest, d)[w] == recs[k].0;
        if recs.last().1 == d {
            assert(paths_in(recs, d)[w] == recs[k].0);
        }
    }
}

/// Duplicate groups never have fewer than two members, and a record whose
/// digest some other record shares appears in exactly one group: the one for
/// that digest.
pub proof fn lemma_groups_cover_shared(
    recs: Seq<(Seq<char>, Seq<char>)>,
    gs: Seq<DuplicateGroup>,
    k1: int,
    k2: int,
)
    requires
        groups_of(recs, gs),
        0 <= k1 < recs.len(),
        0 <= k2 < recs.len(),
        k1 != k2,
        recs[k1].1 == recs[k2].1,
    ensures
        forall|j: int| 0 <= j < gs.len() ==> (#[trigger] gs[j]).members@.len() >= 2,
        exists|j: int|
            0 <= j < gs.len() && (#[trigger] gs[j]).digest@ == recs[k1].1 && gs[j]@.1.contains(
                recs[k1].0,
            ),
        forall|j1: int, j2: int|
            0 <= j1 < gs.len() && 0 <= j2 < gs.len() && (#[trigger] gs[j1]).digest@ == recs[k1].1
                && (#[trigger] gs[j2]).digest@ == recs[k1].1 ==> j1 == j2,
{
    assert forall|j: int| 0 <= j < gs.len() implies (#[trigger] gs[j]).members@.len() >= 2 by {
        assert(group_matches(recs, gs[j]@));
    }
    let d = recs[k1].1;
    let (lo, hi) = if k1 < k2 {
        (k1, k2)
    } else {
        (k2, k1)
    };
    lemma_paths_in_has(recs.subrange(0, hi), d, lo);
    lemma_paths_in_has(recs, d, hi);
    lemma_paths_in_has(recs, d, k1);
    assert(paths_in(recs, d).len() >= 2);
    assert(paths_in(recs, recs[k1].1).len() >= 2);
    assert(has_group(gs, d));
    let j = choose|j: int| 0 <= j < gs.len() && (#[trigger] gs[j]).digest@ == d;
    assert(group_matches(recs, gs[j]@));
}

/// Taking out the records for path `p` leaves exactly the records for other
/// paths: none for `p` remains and every other one stays.
pub proof fn lemma_without_path(recs: Seq<(Seq<char>, Seq<char>)>, p: Seq<char>, r: (Seq<char>, Seq<char>))
    ensures
        without_path(recs, p).contains(r) <==> recs.contains(r) && r.0 != p,
    decreases recs.len(),
{
    if recs.len() > 0 {
        let init = recs.drop_last();
        lemma_without_path(init, p, r);
        let w0 = without_path(init, p);
        let w1 = without_path(recs, p);
        if w1.contains(r) {
            let k = choose|k: int| 0 <= k < w1.len() && w1[k] == r;
            if k < w0.len() {
                assert(w0[k] == r);
                let j = choose|j: int| 0 <= j < init.len() && init[j] == r;
                assert(recs[j] == r);
            } else {
                assert(recs[recs.len() - 1] == r);
            }
        }
        if recs.contains(r) && r.0 != p {
            let j = choose|j: int| 0 <= j < recs.len() && recs[j] == r;
            if j < init.len() {
                assert(init[j] == r);
                let k = choose|k: int| 0 <= k < w0.len() && w0[k] == r;
                assert(w1[k] == r);
            } else {
                assert(w1[w1.len() - 1] == r);
            }
        }
    }
}

/// Taking out the records for a list of deleted paths leaves exactly the
/// records whose path is not in the list: the index names no deleted file.
pub proof fn lemma_without_paths(
    recs: Seq<(Seq<char>, Seq<char>)>,
    ps: Seq<Seq<char>>,
    r: (Seq<char>, Seq<char>),
)
    ensures
        without_paths(recs, ps).contains(r) <==> recs.contains(r) && !ps.contains(r.0),
    decreases ps.len(),
{
    if ps.len() > 0 {
        let init = ps.drop_last();
        lemma_without_paths(recs, init, r);
        lemma_without_path(without_paths(recs, init), ps.last(), r);
        if ps.contains(r.0) {
            let k = choose|k: int| 0 <= k < ps.len() && ps[k] == r.0;
            if k < init.len() {
                assert(init[k] == r.0);
            }
        }
        if init.contains(r.0) {
            let k = choose|k: int| 0 <= k < init.len() && init[k] == r.0;
            assert(ps[k] == r.0);
        }
    }
}

/// The table of (path, digest) records built by a scan.
pub struct Index {
    records: Vec<FileRecord>,
}

impl View for Index {
    type V = Seq<(Seq<char>, Seq<char>)>;

    closed spec fn view(&self) -> Seq<(Seq<char>, Seq<char>)> {
        self.records@.map_values(|r: FileRecord| r@)
    }
}

impl Index {
    /// An empty index.
    pub fn new() -> (r: Index)
        ensures
            r@ == Seq::<(Seq<char>, Seq<char>)>::empty(),
    {
        let r = Index { records: Vec::new() };
        assert(r@ =~= Seq::<(Seq<char>, Seq<char>)>::empty());
        r
    }

    /// An index holding the given records, in their order.
    pub fn from_records(records: Vec<FileRecord>) -> (r: Index)
        ensures
            r@ == records@.map_values(|x: FileRecord| x@),
    {
        Index { records }
    }

    /// The number of records.
    pub fn len(&self) -> (n: usize)
        ensures
            n == self@.len(),
    {
        self.records.len()
    }

    /// The record at position `i`.
    pub fn record(&self, i: usize) -> (r: &FileRecord)
        requires
            i < self@.len(),
        ensures
            r@ == self@[i as int],
    {
        &self.records[i]
    }

    /// Drops every record: the start of a new scan.
    pub fn reset(&mut self)
        ensures
            final(self)@ == Seq::<(Seq<char>, Seq<char>)>::empty(),
    {
        self.records = Vec::new();
        assert(self@ =~= Seq::<(Seq<char>, Seq<char>)>::empty());
    }

    /// Adds a record at the end.
    pub fn insert(&mut self, path: String, digest: String)
        ensures
            final(self)@ == old(self)@.push((path@, digest@)),
    {
        let rec = FileRecord::new(path, digest);
        self.records.push(rec);
        assert(self@ =~= old(self)@.push((path@, digest@)));
    }

    /// All paths recorded under `digest`, in record order.
    pub fn paths_for(&self, digest: &String) -> (r: Vec<String>)
        ensures
            strings_view(r@) == paths_in(self@, digest@),
    {
        let mut out: Vec<String> = Vec::new();
        let mut i: usize = 0;
        while i < self.records.len()
            invariant
                i <= self@.len(),
                strings_view(out@) == paths_in(self@.subrange(0, i as int), digest@),
            decreases self@.len() - i,
        {
            let rec = &self.records[i];
            proof {
                assert(self@.subrange(0, i + 1).drop_last() =~= self@.subrange(0, i as int));
                assert(self@.subrange(0, i + 1).last() == rec@);
            }
            if rec.digest == *digest {
                out.push(rec.path.clone());
                assert(strings_view(out@) =~= paths_in(self@.subrange(0, i + 1), digest@));
            }
            i = i + 1;
        }
        assert(self@.subrange(0, self@.len() as int) =~= self@);
        out
    }

    /// Takes out every record for `path`, keeping the others in order.
    /// Resolving a group calls this for each file it deletes, so that the
    /// index never names a file that a resolution removed.
    pub fn delete_record(&mut self, path: &String)
        ensures
            final(self)@ == without_path(old(self)@, path@),
    {
        let mut kept: Vec<FileRecord> = Vec::new();
        let mut i: usize = 0;
        while i < self.records.len()
            invariant
                i <= self@.len(),
                self@ == old(self)@,
                kept@.map_values(|x: FileRecord| x@) == without_path(
                    self@.subrange(0, i as int),
                    path@,
                ),
            decreases self@.len() - i,
        {
            let rec = &self.records[i];
            proof {
                assert(self@.subrange(0, i + 1).drop_last() =~= self@.subrange(0, i as int));
                assert(self@.subrange(0, i + 1).last() == rec@);
            }
            if rec.path != *path {
                kept.push(rec.duplicate());
            }
            assert(kept@.map_values(|x: FileRecord| x@) =~= without_path(
                self@.subrange(0, i + 1),
                path@,
            ));
            i = i + 1;
        }
        assert(self@.subrange(0, self@.len() as int) =~= self@);
        self.records = kept;
    }

    /// Groups the records by digest and keeps the groups of two or more,
    /// in the order in which each digest first occurs.
    pub fn duplicate_groups(&self) -> (r: Vec<DuplicateGroup>)
        ensures
            groups_of(self@, r@),
    {
        let mut groups: Vec<DuplicateGroup> = Vec::new();
        let mut i: usize = 0;
        while i < self.records.len()
            invariant
                i <= self@.len(),
                forall|j: int| 0 <= j < groups@.len() ==> group_matches(self@, #[trigger] groups@[j]@),
                forall|j1: int, j2: int|
                    0 <= j1 < groups@.len() && 0 <= j2 < groups@.len() && j1 != j2
                        ==> (#[trigger] groups@[j1]).digest@ != (#[trigger] groups@[j2]).digest@,
                forall|k: int|
                    0 <= k < i && paths_in(self@, (#[trigger] self@[k]).1).len() >= 2 ==> has_group(
                        groups@,
                        self@[k].1,
                    ),
            decreases self@.len() - i,
        {
            let d = &self.records[i].digest;
            assert(d@ == self@[i as int].1);
            let mut found = false;
            let mut j: usize = 0;
            while j < groups.len()
                invariant
                    j <= groups@.len(),
                    found ==> has_group(groups@, d@),
                    !found ==> forall|jj: int| 0 <= jj < j ==> (#[trigger] groups@[jj]).digest@ != d@,
                decreases groups@.len() - j,
            {
                if groups[j].digest == *d {
                    found = true;
                }
                j = j + 1;
            }
            if !found {
                let members = self.paths_for(d);
                if members.len() >= 2 {
                    let ghost old_groups = groups@;
                    groups.push(DuplicateGroup { digest: d.clone(), members });
                    assert forall|k: int|
                        0 <= k <= i && paths_in(self@, (#[trigger] self@[k]).1).len() >= 2 implies has_group(
                            groups@,
                            self@[k].1,
                        ) by {
                        if k < i {
                            let w = choose|w: int| 0 <= w < old_groups.len() && (#[trigger] old_groups[w]).digest@ == self@[k].1;
                            assert(groups@[w] == old_groups[w]);
                        } else {
                            assert(groups@[old_groups.len() as int].digest@ == d@);
                        }
                    }
                }
            }
            i = i + 1;
        }
        groups
    }

    /// Takes out the records for every path in `paths`, the files that a
    /// resolution deleted, keeping the others in order.
    pub fn delete_records(&mut self, paths: &Vec<String>)
        ensures
            final(self)@ == without_paths(old(self)@, strings_view(paths@)),
    {
        let ghost ps = strings_view(paths@);
        let mut i: usize = 0;
        while i < paths.len()
            invariant
                i <= paths@.len(),
                ps == strings_view(paths@),
                self@ == without_paths(old(self)@, ps.subrange(0, i as int)),
            decreases paths@.len() - i,
        {
            assert(ps.subrange(0, i + 1).drop_last() =~= ps.subrange(0, i as int));
            self.delete_record(&paths[i]);
            i = i + 1;
        }
        assert(ps.subrange(0, ps.len() as int) =~= ps);
    }
}

} // verus!
