//! Routine references of the form `name` or `name[arg]`, as configuration
//! values name providers and backends.

use vstd::prelude::*;
use vstd::string::StrSliceExecFns;

verus! {

/// Why a routine reference was rejected.
#[derive(Clone, Debug, PartialEq, Eq)]
pub enum RoutineParseError {
    /// The reference is empty where one is required.
    Required,
    /// The reference does not fit `name` or `name[arg]`; holds the input.
    Invalid(String),
}

pub open spec fn is_bracket(c: char) -> bool {
    c == '[' || c == ']'
}

/// The first bracket of either kind, or `-1`.
pub open spec fn find_bracket(s: Seq<char>) -> int
    decreases s.len(),
{
    if s.len() == 0 {
        -1
    } else if is_bracket(s[0]) {
        0
    } else {
        let r = find_bracket(s.skip(1));
        if r == -1 {
            -1
        } else {
            r + 1
        }
    }
}

pub proof fn lemma_find_bracket_range(s: Seq<char>)
    ensures
        -1 <= find_bracket(s) < s.len(),
        find_bracket(s) >= 0 ==> is_bracket(s[find_bracket(s)]),
        find_bracket(s) >= 0 ==> forall|i: int| 0 <= i < find_bracket(s) ==> !is_bracket(
            #[trigger] s[i],
        ),
        find_bracket(s) == -1 ==> forall|i: int| 0 <= i < s.len() ==> !is_bracket(
            #[trigger] s[i],
        ),
    decreases s.len(),
{
    if s.len() > 0 && !is_bracket(s[0]) {
        lemma_find_bracket_range(s.skip(1));
        assert(forall|i: int| 1 <= i < s.len() ==> s.skip(1)[i - 1] == #[trigger] s[i]);
    }
}

/// The accepted forms: a bracket-free name alone, or a nonempty
/// bracket-free name, `[`, a bracket-free argument, and a final `]`.
pub open spec fn routine_parse(s: Seq<char>) -> Option<(Seq<char>, Option<Seq<char>>)> {
    let f = find_bracket(s);
    if f == -1 {
        Some((s, None::<Seq<char>>))
    } else if s[f] == '[' && f >= 1 && s.len() >= f + 2 && s.last() == ']' && (forall|i: int|
        f < i < s.len() - 1 ==> !is_bracket(#[trigger] s[i])) {
        Some((s.take(f), Some(s.subrange(f + 1, s.len() - 1))))
    } else {
        None::<(Seq<char>, Option<Seq<char>>)>
    }
}

/// An optional routine argument.
#[derive(Clone, Debug, PartialEq, Eq)]
pub struct RoutineArg {
    arg: Option<String>,
}

impl RoutineArg {
    pub closed spec fn arg_view(&self) -> Option<Seq<char>> {
        match self.arg {
            Some(s) => Some(s@),
            None => None,
        }
    }

    pub fn get(&self) -> (r: &Option<String>)
        ensures
            r matches Some(s) ==> self.arg_view() == Some(s@),
            r is None ==> self.arg_view() is None,
    {
        &self.arg
    }

    /// The argument, or the error a routine that needs one reports.
    pub fn required(&self) -> (r: Result<&String, RoutineParseError>)
        ensures
            r matches Ok(s) ==> self.arg_view() == Some(s@),
            r is Err <==> self.arg_view() is None,
            r matches Err(e) ==> e == RoutineParseError::Required,
    {
        match &self.arg {
            Some(s) => Ok(s),
            None => Err(RoutineParseError::Required),
        }
    }
}

/// A parsed `name[arg]` reference.
#[derive(Clone, Debug, PartialEq, Eq)]
pub struct Routine {
    pub name: String,
    pub arg: RoutineArg,
}

impl Routine {
    /// Parses a routine reference; empty input is `Required`, a form
    /// outside the grammar is `Invalid` with the input.
    pub fn new(input: &str) -> (r: Result<Routine, RoutineParseError>)
        ensures
            input@.len() == 0 ==> r == Err::<Routine, RoutineParseError>(
                RoutineParseError::Required,
            ),
            input@.len() > 0 ==> match routine_parse(input@) {
                Some(p) => {
                    &&& r matches Ok(rt)
                    &&& rt.name@ == p.0
                    &&& (match p.1 {
                        Some(a) => rt.arg.arg_view() == Some(a),
                        None => rt.arg.arg_view() is None,
                    })
                },
                None => r matches Err(e) && e matches RoutineParseError::Invalid(s) && s@
                    == input@,
            },
    {
        let n: usize = input.unicode_len();
        if n == 0 {
            return Err(RoutineParseError::Required);
        }
        proof {
            lemma_find_bracket_range(input@);
        }
        let mut f: Option<usize> = None;
        let mut i: usize = 0;
        while i < n
            invariant_except_break
                i <= n,
                n == input@.len(),
                f is None,
                forall|k: int| 0 <= k < i ==> !is_bracket(#[trigger] input@[k]),
            ensures
                n == input@.len(),
                f is None ==> forall|k: int| 0 <= k < n ==> !is_bracket(#[trigger] input@[k]),
                f matches Some(p) ==> p < n && is_bracket(input@[p as int]) && forall|k: int|
                    0 <= k < p ==> !is_bracket(#[trigger] input@[k]),
            decreases n - i,
        {
            let c: char = input.get_char(i);
            if c == '[' || c == ']' {
                f = Some(i);
                break;
            }
            i = i + 1;
        }
        match f {
            None => {
                proof {
                    if find_bracket(input@) >= 0 {
                        assert(is_bracket(input@[find_bracket(input@)]));
                    }
                }
                Ok(Routine { name: input.to_owned(), arg: RoutineArg { arg: None } })
            },
            Some(p) => {
                proof {
                    if find_bracket(input@) == -1 {
                        assert(!is_bracket(input@[p as int]));
                    }
                    if find_bracket(input@) < p {
                        assert(!is_bracket(input@[find_bracket(input@)]));
                    }
                    if find_bracket(input@) > p {
                        assert(!is_bracket(input@[p as int]));
                    }
                    assert(find_bracket(input@) == p);
                }
                let c: char = input.get_char(p);
                if c == ']' {
                    return Err(RoutineParseError::Invalid(input.to_owned()));
                }
                if p == 0 {
                    return Err(RoutineParseError::Invalid(input.to_owned()));
                }
                if n - p < 2 {
                    return Err(RoutineParseError::Invalid(input.to_owned()));
                }
                let lastc: char = input.get_char(n - 1);
                if lastc != ']' {
                    return Err(RoutineParseError::Invalid(input.to_owned()));
                }
                let mut j: usize = p + 1;
                while j < n - 1
                    invariant_except_break
                        p + 1 <= j <= n - 1,
                        n == input@.len(),
                        p + 2 <= n,
                        forall|k: int| p < k < j ==> !is_bracket(#[trigger] input@[k]),
                    ensures
                        n == input@.len(),
                        p + 2 <= n,
                        p + 1 <= j,
                        (forall|k: int| p < k < j ==> !is_bracket(#[trigger] input@[k])),
                        j < n - 1 ==> is_bracket(input@[j as int]),
                        j >= n - 1 ==> forall|k: int|
                            p < k < n - 1 ==> !is_bracket(#[trigger] input@[k]),
                    decreases n - 1 - j,
                {
                    let c2: char = input.get_char(j);
                    if c2 == '[' || c2 == ']' {
                        break;
                    }
                    j = j + 1;
                }
                if j < n - 1 {
                    return Err(RoutineParseError::Invalid(input.to_owned()));
                }
                let name: String = input.substring_char(0, p).to_owned();
                let arg: String = input.substring_char(p + 1, n - 1).to_owned();
                proof {
                    assert(input@.subrange(p + 1, n - 1) == routine_parse(
                        input@,
                    ).unwrap().1.unwrap());
                }
                Ok(Routine { name, arg: RoutineArg { arg: Some(arg) } })
            },
        }
    }
}

} // verus!
