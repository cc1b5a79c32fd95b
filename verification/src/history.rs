//! Prior outputs indexed by directory and template token, so a build can
//! garbage-collect files that belong to the same logical slot but carry an
//! old digest.

use crate::tmpl::{find_sub, Tmpl};
use vstd::prelude::*;

verus! {

/// Whether two byte slices hold the same bytes.
pub fn bytes_equal(a: &[u8], b: &[u8]) -> (r: bool)
    ensures
        r == (a@ == b@),
{
    if a.len() != b.len() {
        proof {
            if a@ == b@ {
                assert(a@.len() == b@.len());
            }
        }
        return false;
    }
    let mut i: usize = 0;
    while i < a.len()
        invariant
            i <= a@.len(),
            a@.len() == b@.len(),
            forall|k: int| 0 <= k < i ==> a@[k] == b@[k],
        decreases a@.len() - i,
    {
        if a[i] != b[i] {
            proof {
                assert(a@[i as int] != b@[i as int]);
            }
            return false;
        }
        i = i + 1;
    }
    proof {
        assert(a@ =~= b@);
    }
    true
}

/// The last `_` in `s`, or `-1`.
pub open spec fn last_underscore(s: Seq<u8>) -> int
    decreases s.len(),
{
    if s.len() == 0 {
        -1
    } else if s.last() == 95 {
        s.len() - 1
    } else {
        last_underscore(s.drop_last())
    }
}

/// Matches file names of the shape `prefix ∥ stem ∥ _ ∥ rest ∥ suffix`,
/// cut from an output template around its metavariable.
#[derive(Clone, Debug, PartialEq, Eq)]
pub struct FileNameMatcher {
    pub prefix: Vec<u8>,
    pub suffix: Vec<u8>,
}

/// The stem a name yields under a prefix/suffix pair: the middle up to its
/// last `_`, when the name carries both affixes and an `_` between them.
pub open spec fn match_stem(prefix: Seq<u8>, suffix: Seq<u8>, name: Seq<u8>) -> Option<Seq<u8>> {
    if name.len() >= prefix.len() + suffix.len() && name.take(prefix.len() as int) == prefix
        && name.skip(name.len() - suffix.len()) == suffix {
        let mid = name.subrange(prefix.len() as int, name.len() - suffix.len());
        let li = last_underscore(mid);
        if li >= 0 {
            Some(mid.take(li))
        } else {
            None
        }
    } else {
        None
    }
}

impl FileNameMatcher {
    /// Cuts a name template around the first occurrence of the
    /// metavariable; `None` when the template does not hold it.
    pub fn new(tmpl: &Tmpl, mvar: &[u8]) -> (r: Option<FileNameMatcher>)
        requires
            mvar@.len() >= 1,
        ensures
            ({
                let f = find_sub(tmpl.template_view(), mvar@);
                if f == -1 {
                    r is None
                } else {
                    r matches Some(m) && m.prefix@ == tmpl.template_view().take(f) && m.suffix@
                        == tmpl.template_view().skip(f + mvar@.len())
                }
            }),
    {
        let t: &Vec<u8> = tmpl.as_bytes();
        let tl: usize = t.len();
        proof {
            assert(t@.len() == tl);
            crate::tmpl::lemma_find_sub_range(t@, mvar@);
        }
        match crate::tmpl::find_sub_in(t.as_slice(), mvar) {
            None => None,
            Some(f) => {
                let (head, _) = t.as_slice().split_at(f);
                let (_, tail) = t.as_slice().split_at(f + mvar.len());
                let mut prefix: Vec<u8> = Vec::new();
                prefix.extend_from_slice(head);
                let mut suffix: Vec<u8> = Vec::new();
                suffix.extend_from_slice(tail);
                proof {
                    assert(prefix@ =~= tmpl.template_view().take(find_sub(
                        tmpl.template_view(),
                        mvar@,
                    )));
                    assert(suffix@ =~= tmpl.template_view().skip(find_sub(
                        tmpl.template_view(),
                        mvar@,
                    ) + mvar@.len()));
                }
                Some(FileNameMatcher { prefix, suffix })
            },
        }
    }

    /// The stem of `name` under this matcher.
    pub fn matches(&self, name: &[u8]) -> (r: Option<Vec<u8>>)
        ensures
            match match_stem(self.prefix@, self.suffix@, name@) {
                Some(stem) => r matches Some(v) && v@ == stem,
                None => r is None,
            },
    {
        if name.len() < self.prefix.len() || name.len() - self.prefix.len() < self.suffix.len() {
            return None;
        }
        let (head, _) = name.split_at(self.prefix.len());
        let (_, tail) = name.split_at(name.len() - self.suffix.len());
        proof {
            assert(head@ =~= name@.take(self.prefix@.len() as int));
            assert(tail@ =~= name@.skip(name@.len() - self.suffix@.len()));
        }
        if !bytes_equal(head, self.prefix.as_slice()) {
            return None;
        }
        if !bytes_equal(tail, self.suffix.as_slice()) {
            return None;
        }
        let mid_start: usize = self.prefix.len();
        let mid_end: usize = name.len() - self.suffix.len();
        let (mid_plus, _) = name.split_at(mid_end);
        let (_, mid) = mid_plus.split_at(mid_start);
        proof {
            assert(mid@ =~= name@.subrange(
                self.prefix@.len() as int,
                name@.len() - self.suffix@.len(),
            ));
        }
        let ghost midv: Seq<u8> = mid@;
        let mut i: usize = mid.len();
        let mut li: Option<usize> = None;
        proof {
            assert(midv.take(midv.len() as int) =~= midv);
        }
        while i > 0
            invariant_except_break
                i <= midv.len(),
                mid@ == midv,
                li is None,
                last_underscore(midv) == last_underscore(midv.take(i as int)),
            ensures
                mid@ == midv,
                li is None ==> last_underscore(midv) == -1,
                li matches Some(p) ==> last_underscore(midv) == p && p < midv.len(),
            decreases i,
        {
            proof {
                assert(midv.take(i as int).last() == midv[i - 1]);
                assert(midv.take(i as int).drop_last() =~= midv.take(i - 1));
            }
            if mid[i - 1] == 95 {
                proof {
                    assert(last_underscore(midv.take(i as int)) == i - 1);
                }
                li = Some(i - 1);
                break;
            }
            i = i - 1;
        }
        proof {
            if li is None {
                assert(midv.take(0) =~= Seq::<u8>::empty());
            }
        }
        match li {
            None => None,
            Some(p) => {
                let (stem, _) = mid.split_at(p);
                let mut out: Vec<u8> = Vec::new();
                out.extend_from_slice(stem);
                proof {
                    assert(out@ =~= midv.take(p as int));
                }
                Some(out)
            },
        }
    }
}

/// One slot's record: the directory, the token, and the files seen in it.
#[derive(Debug, PartialEq, Eq)]
pub struct HistoryEntry {
    pub dir: Vec<u8>,
    pub prefix: Vec<u8>,
    pub suffix: Vec<u8>,
    pub stem: Vec<u8>,
    pub paths: Vec<Vec<u8>>,
}

/// A slot key as the specification sees it.
pub open spec fn entry_key(e: HistoryEntry) -> (Seq<u8>, Seq<u8>, Seq<u8>, Seq<u8>) {
    (e.dir@, e.prefix@, e.suffix@, e.stem@)
}

/// The paths stored under a key: the first matching record's.
pub open spec fn spec_get(
    entries: Seq<HistoryEntry>,
    key: (Seq<u8>, Seq<u8>, Seq<u8>, Seq<u8>),
) -> Option<Seq<Seq<u8>>>
    decreases entries.len(),
{
    if entries.len() == 0 {
        None
    } else if entry_key(entries[0]) == key {
        Some(entries[0].paths.deep_view())
    } else {
        spec_get(entries.skip(1), key)
    }
}

proof fn lemma_spec_get_update(
    orig: Seq<HistoryEntry>,
    i: int,
    e2: HistoryEntry,
    key: (Seq<u8>, Seq<u8>, Seq<u8>, Seq<u8>),
)
    requires
        0 <= i < orig.len(),
        entry_key(orig[i]) == key,
        entry_key(e2) == key,
        forall|k: int| 0 <= k < i ==> entry_key(#[trigger] orig[k]) != key,
    ensures
        spec_get(orig.update(i, e2), key) == Some(e2.paths.deep_view()),
        forall|k2: (Seq<u8>, Seq<u8>, Seq<u8>, Seq<u8>)|
            k2 != key ==> #[trigger] spec_get(orig.update(i, e2), k2) == spec_get(orig, k2),
    decreases i,
{
    if i == 0 {
        assert(orig.update(0, e2)[0] == e2);
        assert forall|k2: (Seq<u8>, Seq<u8>, Seq<u8>, Seq<u8>)| k2 != key implies #[trigger]
            spec_get(orig.update(0, e2), k2) == spec_get(orig, k2) by {
            reveal_with_fuel(spec_get, 3);
            assert(orig.update(0, e2).skip(1) =~= orig.skip(1));
        }
    } else {
        lemma_spec_get_update(orig.skip(1), i - 1, e2, key);
        assert(orig.update(i, e2)[0] == orig[0]);
        assert(orig.update(i, e2).skip(1) =~= orig.skip(1).update(i - 1, e2));
        assert(entry_key(orig[0]) != key);
        assert(spec_get(orig.update(i, e2), key) == Some(e2.paths.deep_view())) by {
            assert(spec_get(orig.skip(1).update(i - 1, e2), key) == Some(e2.paths.deep_view()));
            assert(spec_get(orig.update(i, e2), key) == spec_get(orig.update(i, e2).skip(1), key));
        }
        assert forall|k2: (Seq<u8>, Seq<u8>, Seq<u8>, Seq<u8>)| k2 != key implies #[trigger]
            spec_get(orig.update(i, e2), k2) == spec_get(orig, k2) by {
            if entry_key(orig[0]) != k2 {
                assert(spec_get(orig.skip(1).update(i - 1, e2), k2) == spec_get(
                    orig.skip(1),
                    k2,
                ));
                assert(spec_get(orig.update(i, e2), k2) == spec_get(
                    orig.update(i, e2).skip(1),
                    k2,
                ));
                assert(spec_get(orig, k2) == spec_get(orig.skip(1), k2));
            }
        }
    }
}

proof fn lemma_spec_get_push(
    orig: Seq<HistoryEntry>,
    e2: HistoryEntry,
    key: (Seq<u8>, Seq<u8>, Seq<u8>, Seq<u8>),
)
    requires
        entry_key(e2) == key,
        forall|k: int| 0 <= k < orig.len() ==> entry_key(#[trigger] orig[k]) != key,
    ensures
        spec_get(orig.push(e2), key) == Some(e2.paths.deep_view()),
        forall|k2: (Seq<u8>, Seq<u8>, Seq<u8>, Seq<u8>)|
            k2 != key ==> #[trigger] spec_get(orig.push(e2), k2) == spec_get(orig, k2),
    decreases orig.len(),
{
    if orig.len() == 0 {
        assert(orig.push(e2)[0] == e2);
        assert forall|k2: (Seq<u8>, Seq<u8>, Seq<u8>, Seq<u8>)| k2 != key implies #[trigger]
            spec_get(orig.push(e2), k2) == spec_get(orig, k2) by {
            reveal_with_fuel(spec_get, 3);
            assert(orig.push(e2).skip(1) =~= Seq::<HistoryEntry>::empty());
        }
    } else {
        lemma_spec_get_push(orig.skip(1), e2, key);
        assert(orig.push(e2)[0] == orig[0]);
        assert(orig.push(e2).skip(1) =~= orig.skip(1).push(e2));
        assert(entry_key(orig[0]) != key);
        assert(spec_get(orig.push(e2), key) == Some(e2.paths.deep_view())) by {
            assert(spec_get(orig.skip(1).push(e2), key) == Some(e2.paths.deep_view()));
            assert(spec_get(orig.push(e2), key) == spec_get(orig.push(e2).skip(1), key));
        }
        assert forall|k2: (Seq<u8>, Seq<u8>, Seq<u8>, Seq<u8>)| k2 != key implies #[trigger]
            spec_get(orig.push(e2), k2) == spec_get(orig, k2) by {
            if entry_key(orig[0]) != k2 {
                assert(spec_get(orig.skip(1).push(e2), k2) == spec_get(orig.skip(1), k2));
                assert(spec_get(orig.push(e2), k2) == spec_get(orig.push(e2).skip(1), k2));
                assert(spec_get(orig, k2) == spec_get(orig.skip(1), k2));
            }
        }
    }
}

/// Prior outputs by `(directory, token)`.
#[derive(Debug)]
pub struct History {
    entries: Vec<HistoryEntry>,
}

impl History {
    pub closed spec fn entries_view(&self) -> Seq<HistoryEntry> {
        self.entries@
    }

    pub open spec fn get(&self, key: (Seq<u8>, Seq<u8>, Seq<u8>, Seq<u8>)) -> Option<
        Seq<Seq<u8>>,
    > {
        spec_get(self.entries_view(), key)
    }

    pub fn new() -> (r: History)
        ensures
            r.entries_view() == Seq::<HistoryEntry>::empty(),
    {
        History { entries: Vec::new() }
    }

    /// Records one file under its slot: the slot's paths grow by the path,
    /// or a fresh slot opens with it; every other slot is untouched.
    pub fn add_path(
        &mut self,
        dir: &[u8],
        prefix: &[u8],
        suffix: &[u8],
        stem: &[u8],
        path: Vec<u8>,
    )
        ensures
            final(self).get((dir@, prefix@, suffix@, stem@)) == (match old(self).get(
                (dir@, prefix@, suffix@, stem@),
            ) {
                Some(ps) => Some(ps.push(path@)),
                None => Some(seq![path@]),
            }),
            forall|k2: (Seq<u8>, Seq<u8>, Seq<u8>, Seq<u8>)|
                k2 != (dir@, prefix@, suffix@, stem@) ==> #[trigger] final(self).get(k2) == old(
                    self,
                ).get(k2),
    {
        let ghost key = (dir@, prefix@, suffix@, stem@);
        let ghost orig: Seq<HistoryEntry> = self.entries@;
        let n: usize = self.entries.len();
        let mut i: usize = 0;
        proof {
            assert(orig.skip(0) =~= orig);
        }
        while i < n
            invariant_except_break
                i <= n,
                n == orig.len(),
                key == (dir@, prefix@, suffix@, stem@),
                self.entries@ == orig,
                forall|k: int| 0 <= k < i ==> entry_key(#[trigger] orig[k]) != key,
                spec_get(orig, key) == spec_get(orig.skip(i as int), key),
            ensures
                self.entries@ == orig,
                n == orig.len(),
                i <= n,
                forall|k: int| 0 <= k < i ==> entry_key(#[trigger] orig[k]) != key,
                i < n ==> entry_key(orig[i as int]) == key && spec_get(orig, key) == Some(
                    orig[i as int].paths.deep_view(),
                ),
                i >= n ==> spec_get(orig, key) is None,
            decreases n - i,
        {
            let e: &HistoryEntry = vstd::slice::slice_index_get(self.entries.as_slice(), i);
            proof {
                assert(*e == orig[i as int]);
            }
            let same: bool = bytes_equal(e.dir.as_slice(), dir) && bytes_equal(
                e.prefix.as_slice(),
                prefix,
            ) && bytes_equal(e.suffix.as_slice(), suffix) && bytes_equal(e.stem.as_slice(), stem);
            proof {
                assert(orig.skip(i as int)[0] == orig[i as int]);
                assert(orig.skip(i as int).skip(1) =~= orig.skip(i + 1));
            }
            if same {
                proof {
                    assert(entry_key(orig[i as int]) == key);
                    assert(spec_get(orig.skip(i as int), key) == Some(
                        orig[i as int].paths.deep_view(),
                    ));
                }
                break;
            }
            proof {
                assert(entry_key(orig[i as int]) != key);
            }
            i = i + 1;
        }
        proof {
            if i >= n {
                assert(orig.skip(n as int) =~= Seq::<HistoryEntry>::empty());
            }
        }
        if i < n {
            let mut e: HistoryEntry = self.entries.remove(i);
            let ghost pre_paths: Seq<Seq<u8>> = e.paths.deep_view();
            e.paths.push(path);
            proof {
                assert(e.paths.deep_view() =~~= pre_paths.push(path@));
            }
            self.entries.insert(i, e);
            proof {
                assert(self.entries@ =~= orig.update(i as int, self.entries@[i as int]));
                lemma_spec_get_update(orig, i as int, self.entries@[i as int], key);
            }
        } else {
            let mut dirv: Vec<u8> = Vec::new();
            dirv.extend_from_slice(dir);
            let mut pv: Vec<u8> = Vec::new();
            pv.extend_from_slice(prefix);
            let mut sv: Vec<u8> = Vec::new();
            sv.extend_from_slice(suffix);
            let mut stv: Vec<u8> = Vec::new();
            stv.extend_from_slice(stem);
            let ghost pathv: Seq<u8> = path@;
            let mut paths: Vec<Vec<u8>> = Vec::new();
            paths.push(path);
            let e = HistoryEntry { dir: dirv, prefix: pv, suffix: sv, stem: stv, paths };
            proof {
                assert(entry_key(e) == key);
                assert(e.paths.deep_view() =~~= seq![pathv]);
            }
            self.entries.push(e);
            proof {
                lemma_spec_get_push(orig, self.entries@.last(), key);
            }
        }
    }

    /// The recorded paths for a slot.
    pub fn query(&self, dir: &[u8], prefix: &[u8], suffix: &[u8], stem: &[u8]) -> (r: Option<
        &Vec<Vec<u8>>,
    >)
        ensures
            match self.get((dir@, prefix@, suffix@, stem@)) {
                Some(paths) => r matches Some(v) && v.deep_view() == paths,
                None => r is None,
            },
    {
        let ghost key = (dir@, prefix@, suffix@, stem@);
        let ghost orig: Seq<HistoryEntry> = self.entries@;
        let n: usize = self.entries.len();
        let mut i: usize = 0;
        proof {
            assert(orig.skip(0) =~= orig);
        }
        while i < n
            invariant
                i <= n,
                n == orig.len(),
                key == (dir@, prefix@, suffix@, stem@),
                self.entries@ == orig,
                spec_get(orig, key) == spec_get(orig.skip(i as int), key),
            decreases n - i,
        {
            let e: &HistoryEntry = vstd::slice::slice_index_get(self.entries.as_slice(), i);
            proof {
                assert(*e == orig[i as int]);
            }
            let same: bool = bytes_equal(e.dir.as_slice(), dir) && bytes_equal(
                e.prefix.as_slice(),
                prefix,
            ) && bytes_equal(e.suffix.as_slice(), suffix) && bytes_equal(e.stem.as_slice(), stem);
            proof {
                assert(orig.skip(i as int)[0] == orig[i as int]);
                assert(orig.skip(i as int).skip(1) =~= orig.skip(i + 1));
            }
            if same {
                proof {
                    assert(entry_key(orig[i as int]) == key);
                    assert(spec_get(orig.skip(i as int), key) == Some(
                        orig[i as int].paths.deep_view(),
                    ));
                }
                return Some(&self.entries.as_slice()[i].paths);
            }
            proof {
                assert(entry_key(orig[i as int]) != key);
            }
            i = i + 1;
        }
        proof {
            assert(orig.skip(n as int) =~= Seq::<HistoryEntry>::empty());
        }
        None
    }
}

} // verus!
