use vstd::prelude::*;

use crate::json::lookup;
use crate::text::{
    chars_of, find_from, join, join_keys, join_path, joined, parent, parent_of, pieces, pos,
    string_of, trim, trim_range,
};

verus! {

/// A link into a document: a canonical file and the keys to walk inside it.
#[derive(Debug, PartialEq, Eq)]
pub struct Reference {
    pub file: String,
    pub keys: Vec<String>,
}

/// The model of a [`Reference`].
pub struct RefView {
    pub file: Seq<char>,
    pub keys: Seq<Seq<char>>,
}

pub open spec fn strings_view(v: Seq<String>) -> Seq<Seq<char>> {
    v.map_values(|k: String| k@)
}

impl View for Reference {
    type V = RefView;

    open spec fn view(&self) -> RefView {
        RefView { file: self.file@, keys: strings_view(self.keys@) }
    }
}

/// How a reference is shown: `<file>#/<keys joined by '/'>`.
pub open spec fn ref_text(file: Seq<char>, keys: Seq<Seq<char>>) -> Seq<char> {
    file + seq!['#', '/'] + joined(keys)
}

/// The file part and the fragment of a reference text `<file>#<fragment>[#...]`;
/// `None` when the text holds no `#`.
pub open spec fn ref_parts(t: Seq<char>) -> Option<(Seq<char>, Seq<char>)> {
    let p = pos(t, '#');
    if p >= t.len() {
        None
    } else {
        let rest = t.subrange(p + 1, t.len() as int);
        Some((t.subrange(0, p), rest.subrange(0, pos(rest, '#'))))
    }
}

/// Where a reference's file part leads when read in `current`: `None` for
/// `current` itself, else the path to be canonicalized.
pub open spec fn file_target(current: Seq<char>, file_part: Seq<char>) -> Option<Seq<char>> {
    let f = trim(file_part);
    if f.len() == 0 {
        None
    } else {
        Some(join(parent(current), f))
    }
}

/// Why a reference could not be built.
#[derive(Debug, PartialEq, Eq)]
pub enum RefError {
    /// The text holds no `#`.
    Malformed(String),
    /// This path has no known canonical form yet.
    Canonicalize(String),
}

/// The model of what [`Reference::new`] returns, given the canonical forms known
/// so far (`paths`: path to canonical path).
pub open spec fn parse_ref(
    paths: Seq<(Seq<char>, Seq<char>)>,
    current: Seq<char>,
    t: Seq<char>,
) -> Result<RefView, Result<Seq<char>, Seq<char>>> {
    match ref_parts(t) {
        None => Err(Ok(t)),
        Some((fp, frag)) => {
            let keys = pieces(frag, '/');
            match file_target(current, fp) {
                None => Ok(RefView { file: current, keys }),
                Some(path) => match lookup(paths, path) {
                    Some(file) => Ok(RefView { file, keys }),
                    None => Err(Err(path)),
                },
            }
        },
    }
}

pub open spec fn pairs_view(v: Seq<(String, String)>) -> Seq<(Seq<char>, Seq<char>)> {
    v.map_values(|p: (String, String)| (p.0@, p.1@))
}

impl RefError {
    /// `Err(Ok(text))` for a malformed text, `Err(Err(path))` for a path to canonicalize.
    pub open spec fn view(&self) -> Result<Seq<char>, Seq<char>> {
        match self {
            RefError::Malformed(t) => Ok(t@),
            RefError::Canonicalize(p) => Err(p@),
        }
    }
}

/// The trimmed, non-empty `/`-separated pieces of `text[from..to]`.
fn split_keys(text: &str, cs: &Vec<char>, from: usize, to: usize) -> (r: Vec<String>)
    requires
        cs@ == text@,
        from <= to <= cs@.len(),
    ensures
        strings_view(r@) == pieces(cs@.subrange(from as int, to as int), '/'),
{
    let ghost whole = pieces(cs@.subrange(from as int, to as int), '/');
    let mut out: Vec<String> = Vec::new();
    let mut i = from;
    let mut done = false;
    while !done
        invariant
            cs@ == text@,
            from <= i <= to <= cs@.len(),
            !done ==> strings_view(out@) + pieces(cs@.subrange(i as int, to as int), '/')
                == whole,
            done ==> strings_view(out@) == whole,
        decreases to - i + (if done { 0int } else { 1int }),
    {
        let j = find_from(cs, '/', i, to);
        let (a, b) = trim_range(cs, i, j);
        let ghost s = cs@.subrange(i as int, to as int);
        let ghost before = strings_view(out@);
        proof {
            assert(s.subrange(0, j - i) =~= cs@.subrange(i as int, j as int));
            if j < to {
                assert(s.subrange(j - i + 1, s.len() as int) =~= cs@.subrange(
                    j + 1,
                    to as int,
                ));
            }
        }
        if a < b {
            let k = string_of(text, a, b);
            out.push(k);
            proof {
                assert(strings_view(out@) =~= before.push(k@));
                assert(before.push(k@) + pieces(cs@.subrange(j + 1, to as int), '/') =~= before
                    + (seq![k@] + pieces(cs@.subrange(j + 1, to as int), '/')));
                if j == to {
                    assert(before.push(k@) =~= before + seq![k@]);
                }
            }
        } else {
            proof {
                if j == to {
                    assert(before + Seq::<Seq<char>>::empty() =~= before);
                }
            }
        }
        if j == to {
            done = true;
        } else {
            i = j + 1;
        }
    }
    out
}

impl Reference {
    /// The reference that `text` names when read inside the canonical file
    /// `current`; `paths` gives the canonical form of each path seen so far.
    pub fn new(current: &str, text: &str, paths: &Vec<(String, String)>) -> (r: Result<
        Reference,
        RefError,
    >)
        ensures
            match r {
                Ok(rf) => parse_ref(pairs_view(paths@), current@, text@) == Ok::<
                    RefView,
                    Result<Seq<char>, Seq<char>>,
                >(rf@),
                Err(e) => parse_ref(pairs_view(paths@), current@, text@) == Err::<
                    RefView,
                    Result<Seq<char>, Seq<char>>,
                >(e.view()),
            },
    {
        let cs = chars_of(text);
        let n = cs.len();
        let p = find_from(&cs, '#', 0, n);
        proof {
            assert(cs@.subrange(0, n as int) =~= cs@);
        }
        if p == n {
            return Err(RefError::Malformed(text.to_owned()));
        }
        let q = find_from(&cs, '#', p + 1, n);
        let ghost rest = text@.subrange(p + 1, text@.len() as int);
        proof {
            assert(rest.subrange(0, q - p - 1) =~= cs@.subrange(p + 1, q as int));
        }
        let keys = split_keys(text, &cs, p + 1, q);
        let (a, b) = trim_range(&cs, 0, p);
        if a == b {
            return Ok(Reference { file: current.to_owned(), keys });
        }
        let fp = string_of(text, a, b);
        let dir = parent_of(current);
        let path = join_path(dir.as_str(), fp.as_str());
        let found = crate::json::find_key(paths, &path);
        proof {
            let pv = pairs_view(paths@);
            let i: int = match found {
                Some(i) => i as int,
                None => paths@.len() as int,
            };
            assert forall|j: int| 0 <= j < i implies (#[trigger] pv[j]).0 != path@ by {
                assert(pv[j].0 == paths@[j].0@);
            }
            crate::json::lemma_lookup_first(pv, path@, i);
        }
        match found {
            Some(i) => Ok(Reference { file: paths[i].1.clone(), keys }),
            None => Err(RefError::Canonicalize(path)),
        }
    }

    /// The reference shown with its first `end` keys only.
    pub fn display(&self, end: usize) -> (r: String)
        requires
            end <= self.keys@.len(),
        ensures
            r@ == ref_text(self.file@, self@.keys.subrange(0, end as int)),
    {
        let mut r = self.file.clone();
        r.append("#/");
        let tail = join_keys(self.keys.as_slice(), end);
        r.append(tail.as_str());
        proof {
            reveal_strlit("#/");
            assert(self.keys@.subrange(0, end as int).map_values(|k: String| k@) =~= self@.keys.subrange(
                0,
                end as int,
            ));
            assert(r@ =~= ref_text(self.file@, self@.keys.subrange(0, end as int)));
        }
        r
    }

    /// The reference shown whole.
    pub fn to_string(&self) -> (r: String)
        ensures
            r@ == ref_text(self@.file, self@.keys),
    {
        let r = self.display(self.keys.len());
        assert(self@.keys.subrange(0, self@.keys.len() as int) =~= self@.keys);
        r
    }

    /// Whether the two references name the same file and keys.
    pub fn same(&self, other: &Reference) -> (r: bool)
        ensures
            r == (self@ == other@),
    {
        if self.file != other.file || self.keys.len() != other.keys.len() {
            assert(self@.keys.len() == self.keys@.len());
            assert(other@.keys.len() == other.keys@.len());
            return false;
        }
        let mut i: usize = 0;
        while i < self.keys.len()
            invariant
                self.keys@.len() == other.keys@.len(),
                i <= self.keys@.len(),
                forall|j: int| 0 <= j < i ==> self.keys@[j]@ == other.keys@[j]@,
            decreases self.keys@.len() - i,
        {
            if self.keys[i] != other.keys[i] {
                assert(self@.keys[i as int] != other@.keys[i as int]);
                return false;
            }
            i = i + 1;
        }
        assert(self@.keys =~= other@.keys);
        true
    }
}


} // verus!
