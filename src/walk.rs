use vstd::prelude::*;

use crate::digest::{digest_of, DigestStream};
use crate::index::Index;

verus! {

/// One entry of a directory listing, as the caller read it from disk.
pub enum Entry {
    /// A subdirectory, to be listed in turn.
    Directory { path: String },
    /// A regular file, with a digest stream that has been fed its bytes.
    File { path: String, content: DigestStream },
    /// Anything else (a link, a device): neither listed nor recorded.
    Other { path: String },
}

/// The index after visiting one entry: a regular file adds its record.
pub open spec fn visit_records(recs: Seq<(Seq<char>, Seq<char>)>, e: Entry) -> Seq<
    (Seq<char>, Seq<char>),
> {
    match e {
        Entry::File { path, content } => recs.push((path@, digest_of(content.fed()))),
        _ => recs,
    }
}

/// The records that visiting a sequence of entries adds to an empty index.
pub open spec fn records_of(es: Seq<Entry>) -> Seq<(Seq<char>, Seq<char>)>
    decreases es.len(),
{
    if es.len() == 0 {
        Seq::empty()
    } else {
        visit_records(records_of(es.drop_last()), es.last())
    }
}

/// The entry at some position is a regular file at path `p`.
pub open spec fn is_file_at(es: Seq<Entry>, k: int, p: Seq<char>) -> bool {
    0 <= k < es.len() && match es[k] {
        Entry::File { path, .. } => path@ == p,
        _ => false,
    }
}

/// The sequence in reverse order.
pub open spec fn reversed<T>(s: Seq<T>) -> Seq<T> {
    Seq::new(s.len(), |i: int| s[s.len() - 1 - i])
}

/// A scan in progress: the index being rebuilt and a stack of entries still
/// to visit. A listing is pushed in reverse, so its entries come off the stack
/// in listing order, and a subdirectory's own listing is pushed on top of its
/// later siblings: the walk is depth-first in listing order.
pub struct Scan {
    index: Index,
    stack: Vec<Entry>,
    pushed: Ghost<Seq<Entry>>,
    seen: Ghost<Seq<Entry>>,
}

impl Scan {
    /// Every entry put on the stack so far, the root directory first.
    pub closed spec fn pushed(&self) -> Seq<Entry> {
        self.pushed@
    }

    /// Every entry visited so far, in visiting order.
    pub closed spec fn seen(&self) -> Seq<Entry> {
        self.seen@
    }

    /// The entries waiting on the stack; the last is visited next.
    pub closed spec fn stack(&self) -> Seq<Entry> {
        self.stack@
    }

    /// The records built so far.
    pub closed spec fn records(&self) -> Seq<(Seq<char>, Seq<char>)> {
        self.index@
    }

    /// The index holds exactly the records of the visited entries, and each
    /// entry ever pushed has been visited or is waiting.
    pub closed spec fn wf(&self) -> bool {
        &&& self.index@ == records_of(self.seen@)
        &&& forall|e: Entry|
            #![trigger self.pushed@.contains(e)]
            #![trigger self.seen@.contains(e)]
            #![trigger self.stack@.contains(e)]
            self.pushed@.contains(e) <==> (self.seen@.contains(e) || self.stack@.contains(e))
    }

    /// Starts a scan of `root`, dropping every record the index held.
    pub fn new(root: String, index: Index) -> (r: Scan)
        ensures
            r.wf(),
            r.pushed() == seq![Entry::Directory { path: root }],
            r.stack() == seq![Entry::Directory { path: root }],
            r.seen() == Seq::<Entry>::empty(),
            r.records() == Seq::<(Seq<char>, Seq<char>)>::empty(),
    {
        let mut index = index;
        index.reset();
        let mut stack: Vec<Entry> = Vec::new();
        stack.push(Entry::Directory { path: root });
        let ghost start = stack@;
        let r = Scan { index, stack, pushed: Ghost(start), seen: Ghost(Seq::empty()) };
        assert(r.seen@.len() == 0);
        r
    }

    /// Puts the listing of the directory just handed out on the stack, so
    /// that its entries are visited next, in listing order.
    pub fn push_listing(&mut self, listing: Vec<Entry>)
        requires
            old(self).wf(),
        ensures
            final(self).wf(),
            final(self).stack() == old(self).stack() + reversed(listing@),
            final(self).pushed() == old(self).pushed() + reversed(listing@),
            final(self).seen() == old(self).seen(),
            final(self).records() == old(self).records(),
    {
        let mut listing = listing;
        let ghost all = listing@;
        let ghost s0 = self.stack@;
        let ghost p0 = self.pushed@;
        while listing.len() > 0
            invariant
                listing@.len() <= all.len(),
                listing@ == all.subrange(0, listing@.len() as int),
                self.stack@ == s0 + reversed(all.subrange(listing@.len() as int, all.len() as int)),
                self.pushed@ == p0 + reversed(all.subrange(listing@.len() as int, all.len() as int)),
                self.seen@ == old(self).seen@,
                self.index@ == old(self).index@,
                self.wf(),
            decreases listing@.len(),
        {
            let ghost n = listing@.len() as int;
            let e = listing.pop().unwrap();
            assert(e == all[n - 1]);
            assert(listing@ =~= all.subrange(0, n - 1));
            let ghost ps = self.pushed@;
            let ghost ss = self.stack@;
            self.stack.push(e);
            self.pushed = Ghost(self.pushed@.push(e));
            assert(reversed(all.subrange(n - 1, all.len() as int)) =~= reversed(
                all.subrange(n, all.len() as int),
            ).push(e));
            assert forall|x: Entry|
                self.pushed@.contains(x) <==> (self.seen@.contains(x) || self.stack@.contains(x)) by {
                assert(ps.contains(x) <==> (self.seen@.contains(x) || ss.contains(x)));
                if ps.contains(x) {
                    let w = choose|w: int| 0 <= w < ps.len() && ps[w] == x;
                    assert(self.pushed@[w] == x);
                }
                if ss.contains(x) {
                    let w = choose|w: int| 0 <= w < ss.len() && ss[w] == x;
                    assert(self.stack@[w] == x);
                }
                if x == e {
                    assert(self.pushed@[ps.len() as int] == x);
                    assert(self.stack@[ss.len() as int] == x);
                }
                if self.pushed@.contains(x) && x != e {
                    let w = choose|w: int| 0 <= w < self.pushed@.len() && self.pushed@[w] == x;
                    assert(ps[w] == x);
                }
                if self.stack@.contains(x) && x != e {
                    let w = choose|w: int| 0 <= w < self.stack@.len() && self.stack@[w] == x;
                    assert(ss[w] == x);
                }
            }
        }
        assert(all.subrange(0, all.len() as int) =~= all);
    }

    /// Visits entries from the top of the stack: each regular file is
    /// recorded with its digest and anything else but a directory is passed
    /// over, until a directory comes off the stack, which is handed out to be
    /// listed. `None` once the stack is empty.
    pub fn next_directory(&mut self) -> (r: Option<String>)
        requires
            old(self).wf(),
        ensures
            final(self).wf(),
            final(self).pushed() == old(self).pushed(),
            final(self).records() == records_of(final(self).seen()),
            exists|m: int|
                0 <= m <= old(self).stack().len() && final(self).stack() == old(
                    self,
                ).stack().subrange(0, m) && final(self).seen() == old(self).seen() + reversed(
                    old(self).stack().subrange(m, old(self).stack().len() as int),
                ),
            forall|k: int|
                old(self).seen().len() <= k < final(self).seen().len() - 1 ==> !(
                #[trigger] final(self).seen()[k] is Directory),
            r is None ==> final(self).stack().len() == 0 && (final(self).seen().len() == old(
                self,
            ).seen().len() || !(final(self).seen().last() is Directory)),
            r matches Some(d) ==> final(self).seen().len() > old(self).seen().len()
                && final(self).seen().last() == (Entry::Directory { path: d }),
    {
        let ghost s0 = self.stack@;
        let ghost seen0 = self.seen@;
        while self.stack.len() > 0
            invariant
                self.wf(),
                self.pushed@ == old(self).pushed@,
                s0 == old(self).stack@,
                seen0 == old(self).seen@,
                self.stack@.len() <= s0.len(),
                self.stack@ == s0.subrange(0, self.stack@.len() as int),
                self.seen@ == seen0 + reversed(s0.subrange(self.stack@.len() as int, s0.len() as int)),
                forall|k: int| seen0.len() <= k < self.seen@.len() ==> !(#[trigger] self.seen@[k] is Directory),
            decreases self.stack@.len(),
        {
            let ghost n = self.stack@.len() as int;
            let ghost ss = self.stack@;
            let ghost sn = self.seen@;
            let e = self.stack.pop().unwrap();
            self.seen = Ghost(self.seen@.push(e));
            assert(reversed(s0.subrange(n - 1, s0.len() as int)) =~= reversed(
                s0.subrange(n, s0.len() as int),
            ).push(e));
            assert(self.seen@.drop_last() == sn);
            assert forall|x: Entry|
                self.pushed@.contains(x) <==> (self.seen@.contains(x) || self.stack@.contains(x)) by {
                assert(self.pushed@.contains(x) <==> (sn.contains(x) || ss.contains(x)));
                if sn.contains(x) {
                    let w = choose|w: int| 0 <= w < sn.len() && sn[w] == x;
                    assert(self.seen@[w] == x);
                }
                if ss.contains(x) {
                    let w = choose|w: int| 0 <= w < ss.len() && ss[w] == x;
                    if w < ss.len() - 1 {
                        assert(self.stack@[w] == x);
                    } else {
                        assert(self.seen@[sn.len() as int] == x);
                    }
                }
                if self.seen@.contains(x) {
                    let w = choose|w: int| 0 <= w < self.seen@.len() && self.seen@[w] == x;
                    if w < sn.len() {
                        assert(sn[w] == x);
                    } else {
                        assert(ss[ss.len() - 1] == x);
                    }
                }
                if self.stack@.contains(x) {
                    let w = choose|w: int| 0 <= w < self.stack@.len() && self.stack@[w] == x;
                    assert(ss[w] == x);
                }
            }
            proof {
                let m = self.stack@.len() as int;
                assert(self.stack@ == old(self).stack@.subrange(0, m));
                assert(self.seen@ == old(self).seen@ + reversed(
                    old(self).stack@.subrange(m, old(self).stack@.len() as int),
                ));
                assert(0 <= m <= old(self).stack().len() && self.stack() == old(self).stack().subrange(0, m)
                    && self.seen() == old(self).seen() + reversed(
                    old(self).stack().subrange(m, old(self).stack().len() as int),
                ));
            }
            match e {
                Entry::Directory { path } => {
                    return Some(path);
                },
                Entry::File { path, content } => {
                    let digest = content.finish();
                    self.index.insert(path, digest);
                },
                Entry::Other { .. } => {},
            }
        }
        proof {
            assert(self.stack@ == old(self).stack@.subrange(0, 0));
            assert(self.stack() == old(self).stack().subrange(0, 0) && self.seen() == old(self).seen()
                + reversed(old(self).stack().subrange(0, old(self).stack().len() as int)));
        }
        None
    }

    /// Whether every entry pushed has been visited.
    pub fn is_done(&self) -> (r: bool)
        ensures
            r == (self.stack().len() == 0),
    {
        self.stack.len() == 0
    }

    /// Ends the scan and gives back the rebuilt index.
    pub fn finish(self) -> (r: Index)
        ensures
            r@ == self.records(),
    {
        self.index
    }
}

/// The paths of a sequence of records.
pub open spec fn record_paths(recs: Seq<(Seq<char>, Seq<char>)>) -> Seq<Seq<char>> {
    recs.map_values(|r: (Seq<char>, Seq<char>)| r.0)
}

proof fn lemma_records_of_paths(es: Seq<Entry>, p: Seq<char>)
    ensures
        record_paths(records_of(es)).contains(p) <==> exists|k: int| is_file_at(es, k, p),
    decreases es.len(),
{
    if es.len() > 0 {
        let init = es.drop_last();
        lemma_records_of_paths(init, p);
        let r0 = records_of(init);
        let r1 = records_of(es);
        assert forall|k: int| is_file_at(init, k, p) implies is_file_at(es, k, p) by {
            assert(es[k] == init[k]);
        }
        if exists|k: int| is_file_at(es, k, p) {
            let k = choose|k: int| is_file_at(es, k, p);
            if k < init.len() {
                assert(es[k] == init[k]);
                assert(is_file_at(init, k, p));
                let w = choose|w: int| 0 <= w < record_paths(r0).len() && record_paths(r0)[w] == p;
                assert(record_paths(r1)[w] == p);
            } else {
                assert(record_paths(r1)[r0.len() as int] == p);
            }
        }
        if record_paths(r1).contains(p) {
            let w = choose|w: int| 0 <= w < record_paths(r1).len() && record_paths(r1)[w] == p;
            if w < r0.len() {
                assert(record_paths(r0)[w] == p);
            } else {
                assert(is_file_at(es, es.len() - 1, p));
            }
        }
    }
}

/// Once the stack is empty, every entry pushed (the root, and every entry of
/// every listing) has been visited, the index holds exactly the records of the
/// visited entries, and its paths are exactly those of the regular files
/// among them.
pub proof fn lemma_scan_complete(s: &Scan)
    requires
        s.wf(),
        s.stack().len() == 0,
    ensures
        s.records() == records_of(s.seen()),
        forall|e: Entry| #[trigger] s.pushed().contains(e) ==> s.seen().contains(e),
        forall|p: Seq<char>|
            #[trigger] record_paths(s.records()).contains(p) <==> exists|k: int|
                is_file_at(s.seen(), k, p),
{
    assert forall|e: Entry| #[trigger] s.pushed().contains(e) implies s.seen().contains(e) by {
        assert(!s.stack@.contains(e));
    }
    assert forall|p: Seq<char>|
        #[trigger] record_paths(s.records()).contains(p) <==> exists|k: int|
            is_file_at(s.seen(), k, p) by {
        lemma_records_of_paths(s.seen(), p);
    }
}

} // verus!
