//! Byte templates with metavariable substitution, and path templates whose
//! filename holds exactly one metavariable.

use vstd::prelude::*;

verus! {

/// Why a path template was rejected.
#[derive(Clone, Copy, Debug, PartialEq, Eq, Structural)]
pub enum TmplError {
    /// The path has no parent directory.
    NoParent,
    /// The path has no file name.
    NoFileName,
    /// The parent directory holds a metavariable.
    MetavarInDirectory,
    /// The file name does not hold the metavariable exactly once.
    MetavarCount,
}

/// Whether `pat` occurs in `s` at position `i`.
pub open spec fn occurs_at(s: Seq<u8>, pat: Seq<u8>, i: int) -> bool {
    0 <= i && i + pat.len() <= s.len() && s.subrange(i, i + pat.len()) == pat
}

/// The first occurrence of `pat` in `s`, or `-1`.
pub open spec fn find_sub(s: Seq<u8>, pat: Seq<u8>) -> int
    decreases s.len(),
    when pat.len() >= 1
{
    if s.len() < pat.len() {
        -1
    } else if s.subrange(0, pat.len() as int) == pat {
        0
    } else {
        let r = find_sub(s.skip(1), pat);
        if r == -1 {
            -1
        } else {
            r + 1
        }
    }
}

pub proof fn lemma_find_sub_range(s: Seq<u8>, pat: Seq<u8>)
    requires
        pat.len() >= 1,
    ensures
        -1 <= find_sub(s, pat),
        find_sub(s, pat) >= 0 ==> find_sub(s, pat) + pat.len() <= s.len(),
        find_sub(s, pat) >= 0 ==> occurs_at(s, pat, find_sub(s, pat)),
        find_sub(s, pat) == -1 ==> forall|i: int| !occurs_at(s, pat, i),
    decreases s.len(),
{
    if s.len() < pat.len() {
        assert forall|i: int| !occurs_at(s, pat, i) by {}
    } else if s.subrange(0, pat.len() as int) == pat {
    } else {
        lemma_find_sub_range(s.skip(1), pat);
        let f = find_sub(s.skip(1), pat);
        if f >= 0 {
            assert(s.skip(1).subrange(f, f + pat.len()) =~= s.subrange(f + 1, f + 1 + pat.len()));
        } else {
            assert forall|i: int| !occurs_at(s, pat, i) by {
                if 1 <= i && i + pat.len() <= s.len() {
                    assert(!occurs_at(s.skip(1), pat, i - 1));
                    assert(s.skip(1).subrange(i - 1, i - 1 + pat.len()) =~= s.subrange(
                        i,
                        i + pat.len(),
                    ));
                }
            }
        }
    }
}

/// How many non-overlapping occurrences a left-to-right scan finds.
pub open spec fn count_occurrences(s: Seq<u8>, pat: Seq<u8>) -> int
    decreases s.len(),
    when pat.len() >= 1
{
    let f = find_sub(s, pat);
    if !(0 <= f && f + pat.len() <= s.len()) {
        0
    } else {
        1 + count_occurrences(s.skip(f + pat.len()), pat)
    }
}

/// Every occurrence replaced, scanning left to right.
pub open spec fn replace_all(s: Seq<u8>, pat: Seq<u8>, val: Seq<u8>) -> Seq<u8>
    decreases s.len(),
    when pat.len() >= 1
{
    let f = find_sub(s, pat);
    if !(0 <= f && f + pat.len() <= s.len()) {
        s
    } else {
        s.take(f) + val + replace_all(s.skip(f + pat.len()), pat, val)
    }
}

/// Whether two byte slices hold the same bytes.
fn bytes_eq(a: &[u8], b: &[u8]) -> (r: bool)
    ensures
        r == (a@ == b@),
{
    if a.len() != b.len() {
        proof {
            if a@ == b@ {
                assert(a@.len() == b@.len());
            }
        }
        return false;
    }
    let mut i: usize = 0;
    while i < a.len()
        invariant
            i <= a@.len(),
            a@.len() == b@.len(),
            forall|k: int| 0 <= k < i ==> a@[k] == b@[k],
        decreases a@.len() - i,
    {
        if a[i] != b[i] {
            proof {
                assert(a@[i as int] != b@[i as int]);
            }
            return false;
        }
        i = i + 1;
    }
    proof {
        assert(a@ =~= b@);
    }
    true
}

/// The position of the first occurrence of `pat` in `s`.
pub fn find_sub_in(s: &[u8], pat: &[u8]) -> (r: Option<usize>)
    requires
        pat@.len() >= 1,
    ensures
        find_sub(s@, pat@) == -1 ==> r is None,
        find_sub(s@, pat@) >= 0 ==> r == Some(find_sub(s@, pat@) as usize),
        r matches Some(i) ==> 0 <= find_sub(s@, pat@) && i == find_sub(s@, pat@) && i + pat@.len()
            <= s@.len(),
    decreases s@.len(),
{
    if s.len() < pat.len() {
        proof {
            lemma_find_sub_range(s@, pat@);
        }
        return None;
    }
    let (head, _) = s.split_at(pat.len());
    proof {
        assert(head@ =~= s@.subrange(0, pat@.len() as int));
    }
    let eq: bool = bytes_eq(head, pat);
    if eq {
        proof {
            assert(s@.subrange(0, pat@.len() as int) == pat@);
        }
        Some(0)
    } else {
        proof {
            assert(s@.subrange(0, pat@.len() as int) != pat@);
        }
        let ghost f = find_sub(s@.skip(1), pat@);
        proof {
            lemma_find_sub_range(s@.skip(1), pat@);
        }
        let (_, tail) = s.split_at(1);
        proof {
            assert(tail@ =~= s@.skip(1));
        }
        match find_sub_in(tail, pat) {
            None => None,
            Some(i) => Some(i + 1),
        }
    }
}

/// Appends a slice to a vector.
fn push_all(out: &mut Vec<u8>, s: &[u8])
    ensures
        final(out)@ == old(out)@ + s@,
{
    out.extend_from_slice(s);
    proof {
        assert(out@ =~= old(out)@ + s@);
    }
}

/// Replaces every occurrence of `pat` by `val`, scanning left to right.
pub fn replace_bytes(s: &[u8], pat: &[u8], val: &[u8]) -> (r: Vec<u8>)
    requires
        pat@.len() >= 1,
    ensures
        r@ == replace_all(s@, pat@, val@),
    decreases s@.len(),
{
    proof {
        lemma_find_sub_range(s@, pat@);
    }
    match find_sub_in(s, pat) {
        None => {
            let mut out: Vec<u8> = Vec::new();
            push_all(&mut out, s);
            proof {
                assert(out@ =~= replace_all(s@, pat@, val@));
            }
            out
        },
        Some(f) => {
            proof {
                vstd::slice::axiom_spec_len::<u8>(s);
            }
            let (head, _) = s.split_at(f);
            let (_, rest) = s.split_at(f + pat.len());
            proof {
                assert(head@ =~= s@.take(find_sub(s@, pat@)));
                assert(rest@ =~= s@.skip(find_sub(s@, pat@) + pat@.len()));
            }
            let mut out: Vec<u8> = Vec::new();
            push_all(&mut out, head);
            push_all(&mut out, val);
            let mut tail: Vec<u8> = replace_bytes(rest, pat, val);
            out.append(&mut tail);
            proof {
                assert(out@ =~= replace_all(s@, pat@, val@));
            }
            out
        },
    }
}

/// Counts the occurrences a left-to-right scan finds.
pub fn count_occurrences_exec(s: &[u8], pat: &[u8]) -> (r: usize)
    requires
        pat@.len() >= 1,
    ensures
        r == count_occurrences(s@, pat@),
    decreases s@.len(),
{
    proof {
        lemma_find_sub_range(s@, pat@);
    }
    match find_sub_in(s, pat) {
        None => 0,
        Some(f) => {
            proof {
                vstd::slice::axiom_spec_len::<u8>(s);
            }
            let (_, rest) = s.split_at(f + pat.len());
            proof {
                assert(rest@ =~= s@.skip(find_sub(s@, pat@) + pat@.len()));
                lemma_count_occurrences_bound(rest@, pat@);
            }
            1 + count_occurrences_exec(rest, pat)
        },
    }
}

proof fn lemma_count_occurrences_bound(s: Seq<u8>, pat: Seq<u8>)
    requires
        pat.len() >= 1,
    ensures
        0 <= count_occurrences(s, pat) <= s.len(),
    decreases s.len(),
{
    lemma_find_sub_range(s, pat);
    let f = find_sub(s, pat);
    if 0 <= f && f + pat.len() <= s.len() {
        lemma_count_occurrences_bound(s.skip(f + pat.len()), pat);
    }
}

/// A byte template; rendering substitutes a metavariable's occurrences.
#[derive(Clone, Debug, PartialEq, Eq)]
pub struct Tmpl {
    template: Vec<u8>,
}

impl Tmpl {
    pub closed spec fn template_view(&self) -> Seq<u8> {
        self.template@
    }

    pub fn new(template: Vec<u8>) -> (r: Tmpl)
        ensures
            r.template_view() == template@,
    {
        Tmpl { template }
    }

    pub fn as_bytes(&self) -> (r: &Vec<u8>)
        ensures
            r@ == self.template_view(),
    {
        &self.template
    }

    /// Substitutes each `(metavariable, value)` pair in turn.
    pub fn render(&self, vars: &Vec<(Vec<u8>, Vec<u8>)>) -> (r: Vec<u8>)
        requires
            forall|k: int| 0 <= k < vars@.len() ==> (#[trigger] vars@[k]).0@.len() >= 1,
        ensures
            r@ == render_spec(self.template_view(), vars.deep_view()),
    {
        let ghost all: Seq<(Seq<u8>, Seq<u8>)> = vars.deep_view();
        proof {
            assert(all.len() == vars@.len());
            assert(forall|k: int|
                0 <= k < all.len() ==> #[trigger] all[k] == ((vars@[k].0)@, (vars@[k].1)@));
            assert(all.skip(0) =~= all);
        }
        let mut cur: Vec<u8> = Vec::new();
        push_all(&mut cur, self.template.as_slice());
        let mut k: usize = 0;
        while k < vars.len()
            invariant
                k <= vars@.len(),
                all == vars.deep_view(),
                all.len() == vars@.len(),
                forall|k2: int|
                    0 <= k2 < all.len() ==> #[trigger] all[k2] == ((vars@[k2].0)@, (
                    vars@[k2].1)@),
                forall|k2: int| 0 <= k2 < vars@.len() ==> (#[trigger] vars@[k2]).0@.len() >= 1,
                render_spec(self.template_view(), all) == render_spec(cur@, all.skip(k as int)),
            decreases vars@.len() - k,
        {
            let pair: &(Vec<u8>, Vec<u8>) = &vars[k];
            let next: Vec<u8> = replace_bytes(cur.as_slice(), pair.0.as_slice(), pair.1.as_slice());
            proof {
                assert(all.skip(k as int)[0] == all[k as int]);
                assert(all.skip(k as int).skip(1) =~= all.skip(k + 1));
                assert(render_spec(cur@, all.skip(k as int)) == render_spec(
                    replace_all(cur@, all[k as int].0, all[k as int].1),
                    all.skip(k + 1),
                ));
            }
            cur = next;
            k = k + 1;
        }
        proof {
            assert(all.skip(all.len() as int) =~= Seq::<(Seq<u8>, Seq<u8>)>::empty());
        }
        cur
    }
}

/// The template with each pair's occurrences substituted in turn.
pub open spec fn render_spec(t: Seq<u8>, vars: Seq<(Seq<u8>, Seq<u8>)>) -> Seq<u8>
    decreases vars.len(),
{
    if vars.len() == 0 {
        t
    } else {
        render_spec(replace_all(t, vars[0].0, vars[0].1), vars.skip(1))
    }
}

/// A filesystem path split into a directory and a file-name template whose
/// text holds the metavariable exactly once.
#[derive(Clone, Debug, PartialEq, Eq)]
pub struct PathTmpl {
    pub directory: Vec<u8>,
    pub name_template: Tmpl,
}

/// Where the parsed directory part of `input` ends, splitting at the last
/// `/`.
pub open spec fn last_slash(s: Seq<u8>) -> int
    decreases s.len(),
{
    if s.len() == 0 {
        -1
    } else if s.last() == 47 {
        s.len() - 1
    } else {
        last_slash(s.drop_last())
    }
}

/// The input without its trailing `/` bytes.
pub open spec fn trim_slashes(s: Seq<u8>) -> Seq<u8>
    decreases s.len(),
{
    if s.len() > 0 && s.last() == 47 {
        trim_slashes(s.drop_last())
    } else {
        s
    }
}

proof fn lemma_trim_slashes_no_tail(s: Seq<u8>)
    ensures
        trim_slashes(s).len() > 0 ==> trim_slashes(s).last() != 47,
    decreases s.len(),
{
    if s.len() > 0 && s.last() == 47 {
        lemma_trim_slashes_no_tail(s.drop_last());
    }
}

fn trim_trailing_slashes(s: &[u8]) -> (r: &[u8])
    ensures
        r@ == trim_slashes(s@),
{
    let mut end: usize = s.len();
    proof {
        assert(s@.take(s@.len() as int) =~= s@);
    }
    while end > 0 && s[end - 1] == 47
        invariant
            end <= s@.len(),
            trim_slashes(s@) == trim_slashes(s@.take(end as int)),
        decreases end,
    {
        proof {
            assert(s@.take(end as int).last() == s@[end - 1]);
            assert(s@.take(end as int).drop_last() =~= s@.take(end - 1));
        }
        end = end - 1;
    }
    let (head, _) = s.split_at(end);
    proof {
        assert(head@ =~= s@.take(end as int));
        if end > 0 {
            assert(s@.take(end as int).last() == s@[end - 1]);
        }
    }
    head
}

impl PathTmpl {
    /// Splits the input at the last `/` after dropping trailing `/` bytes —
    /// no slash means the current directory — and checks the metavariable:
    /// absent from the directory, exactly once in the file name. An input
    /// of only slashes (or nothing) has no parent; a name of `..` is no
    /// file name.
    pub fn new(input: &[u8], mvar: &[u8]) -> (r: Result<PathTmpl, TmplError>)
        requires
            mvar@.len() >= 1,
        ensures
            ({
                let t = trim_slashes(input@);
                if t.len() == 0 {
                    r == Err::<PathTmpl, TmplError>(TmplError::NoParent)
                } else {
                    let ls = last_slash(t);
                    let dir: Seq<u8> = if ls == -1 {
                        seq![46u8]
                    } else {
                        let dr = trim_slashes(t.take(ls));
                        if dr.len() == 0 {
                            seq![47u8]
                        } else {
                            dr
                        }
                    };
                    let name: Seq<u8> = t.skip(ls + 1);
                    if name == seq![46u8, 46u8] {
                        r == Err::<PathTmpl, TmplError>(TmplError::NoFileName)
                    } else if count_occurrences(dir, mvar@) != 0 {
                        r == Err::<PathTmpl, TmplError>(TmplError::MetavarInDirectory)
                    } else if count_occurrences(name, mvar@) != 1 {
                        r == Err::<PathTmpl, TmplError>(TmplError::MetavarCount)
                    } else {
                        r matches Ok(p) && p.directory@ == dir && p.name_template.template_view()
                            == name
                    }
                }
            }),
    {
        let t: &[u8] = trim_trailing_slashes(input);
        let ghost tv: Seq<u8> = t@;
        proof {
            lemma_trim_slashes_no_tail(input@);
        }
        if t.len() == 0 {
            return Err(TmplError::NoParent);
        }
        let mut i: usize = t.len();
        let mut ls: Option<usize> = None;
        proof {
            assert(tv.take(tv.len() as int) =~= tv);
        }
        while i > 0
            invariant_except_break
                i <= tv.len(),
                t@ == tv,
                ls is None,
                last_slash(tv) == last_slash(tv.take(i as int)),
            ensures
                i <= tv.len(),
                t@ == tv,
                ls is None ==> i == 0 && last_slash(tv) == last_slash(tv.take(0)),
                ls matches Some(p) ==> last_slash(tv) == p && p < tv.len() && tv[p as int] == 47,
            decreases i,
        {
            proof {
                assert(tv.take(i as int).last() == tv[i - 1]);
                assert(tv.take(i as int).drop_last() =~= tv.take(i - 1));
            }
            let b: u8 = t[i - 1];
            if b == 47 {
                proof {
                    assert(tv[i - 1] == 47);
                    assert(tv.take(i as int)[i - 1] == tv[i - 1]);
                    assert(tv.take(i as int).last() == 47);
                    assert(last_slash(tv.take(i as int)) == i - 1);
                    assert(last_slash(tv) == i - 1);
                }
                ls = Some(i - 1);
                break;
            }
            i = i - 1;
        }
        proof {
            if ls is None {
                assert(tv.take(0) =~= Seq::<u8>::empty());
            }
            if ls is Some {
                // the trimmed input does not end with a slash
                assert(tv.last() != 47);
                assert(last_slash(tv) < tv.len() - 1);
            }
        }
        let ghost lsg = last_slash(tv);
        let dir: Vec<u8> = match ls {
            None => {
                let mut d: Vec<u8> = Vec::new();
                d.push(46);
                proof {
                    assert(d@ =~= seq![46u8]);
                }
                d
            },
            Some(p) => {
                let (head, _) = t.split_at(p);
                proof {
                    assert(head@ =~= tv.take(lsg));
                }
                let draw: &[u8] = trim_trailing_slashes(head);
                if draw.len() == 0 {
                    let mut d: Vec<u8> = Vec::new();
                    d.push(47);
                    proof {
                        assert(d@ =~= seq![47u8]);
                    }
                    d
                } else {
                    let mut d: Vec<u8> = Vec::new();
                    push_all(&mut d, draw);
                    d
                }
            },
        };
        let name_start: usize = match ls {
            None => 0,
            Some(p) => p + 1,
        };
        let (_, name_slice) = t.split_at(name_start);
        proof {
            assert(name_slice@ =~= tv.skip(lsg + 1));
            assert(name_slice@.len() > 0);
        }
        if name_slice.len() == 2 && name_slice[0] == 46 && name_slice[1] == 46 {
            proof {
                assert(name_slice@ =~= seq![46u8, 46u8]);
            }
            return Err(TmplError::NoFileName);
        }
        proof {
            assert(name_slice@ != seq![46u8, 46u8]) by {
                if name_slice@ == seq![46u8, 46u8] {
                    assert(name_slice@.len() == 2);
                    assert(name_slice@[0] == 46 && name_slice@[1] == 46);
                }
            }
        }
        if count_occurrences_exec(dir.as_slice(), mvar) != 0 {
            return Err(TmplError::MetavarInDirectory);
        }
        if count_occurrences_exec(name_slice, mvar) != 1 {
            return Err(TmplError::MetavarCount);
        }
        let mut name: Vec<u8> = Vec::new();
        push_all(&mut name, name_slice);
        Ok(PathTmpl { directory: dir, name_template: Tmpl::new(name) })
    }

    /// The directory joined with the rendered file name.
    pub fn render(&self, vars: &Vec<(Vec<u8>, Vec<u8>)>) -> (r: Vec<u8>)
        requires
            forall|k: int| 0 <= k < vars@.len() ==> (#[trigger] vars@[k]).0@.len() >= 1,
        ensures
            r@ == self.directory@ + seq![47u8] + render_spec(
                self.name_template.template_view(),
                vars.deep_view(),
            ),
    {
        let mut out: Vec<u8> = Vec::new();
        push_all(&mut out, self.directory.as_slice());
        out.push(47);
        let mut name: Vec<u8> = self.name_template.render(vars);
        out.append(&mut name);
        proof {
            assert(out@ =~= self.directory@ + seq![47u8] + render_spec(
                self.name_template.template_view(),
                vars.deep_view(),
            ));
        }
        out
    }
}

} // verus!
