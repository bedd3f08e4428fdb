use vstd::prelude::*;
use crate::json::str_eq;

verus! {

/// The segments of a path, as character sequences.
pub open spec fn segments(p: Seq<String>) -> Seq<Seq<char>> {
    p.map_values(|s: String| s@)
}

/// A key can stand as a path segment: it is not empty and holds no separator.
pub open spec fn valid_segment(k: Seq<char>) -> bool {
    k.len() > 0 && !k.contains('/')
}

/// `path` lies at or below `base`.
pub open spec fn under(path: Seq<Seq<char>>, base: Seq<Seq<char>>) -> bool {
    base.len() <= path.len() && path.subrange(0, base.len() as int) == base
}

/// The filter rule: inside one of `only` (when there is any) and outside every entry of `except`.
pub open spec fn admits(only: Seq<Seq<Seq<char>>>, except: Seq<Seq<Seq<char>>>, path: Seq<Seq<char>>) -> bool {
    (only.len() == 0 || exists|i: int| 0 <= i < only.len() && under(path, #[trigger] only[i]))
        && forall|i: int| 0 <= i < except.len() ==> !under(path, #[trigger] except[i])
}

/// Checks that a key can stand as a path segment.
pub fn is_valid(k: &str) -> (r: bool)
    ensures
        r == valid_segment(k@),
{
    let n = k.unicode_len();
    if n == 0 {
        return false;
    }
    let mut i: usize = 0;
    while i < n
        invariant
            n == k@.len(),
            i <= n,
            forall|j: int| 0 <= j < i ==> k@[j] != '/',
        decreases n - i,
    {
        if k.get_char(i) == '/' {
            assert(k@[i as int] == '/');
            return false;
        }
        i = i + 1;
    }
    true
}

/// Checks that `path` lies at or below `base`.
pub fn is_under(path: &Vec<String>, base: &Vec<String>) -> (r: bool)
    ensures
        r == under(segments(path@), segments(base@)),
{
    if base.len() > path.len() {
        return false;
    }
    let mut i: usize = 0;
    while i < base.len()
        invariant
            base@.len() <= path@.len(),
            i <= base@.len(),
            forall|j: int| 0 <= j < i ==> path@[j]@ == base@[j]@,
        decreases base@.len() - i,
    {
        if !str_eq(path[i].as_str(), base[i].as_str()) {
            assert(segments(path@).subrange(0, base@.len() as int)[i as int] != segments(base@)[i as int]);
            return false;
        }
        i = i + 1;
    }
    assert(segments(path@).subrange(0, base@.len() as int) =~= segments(base@));
    true
}

/// Include and exclude lists over manifest paths.
pub struct Filter {
    pub only: Vec<Vec<String>>,
    pub except: Vec<Vec<String>>,
}

/// The segments of each path of a list.
pub open spec fn path_list(l: Seq<Vec<String>>) -> Seq<Seq<Seq<char>>> {
    l.map_values(|p: Vec<String>| segments(p@))
}

impl Filter {
    pub open spec fn accepts(&self, path: Seq<Seq<char>>) -> bool {
        admits(path_list(self.only@), path_list(self.except@), path)
    }

    /// Whether `path` goes through the filter.
    pub fn pass(&self, path: &Vec<String>) -> (r: bool)
        ensures
            r == self.accepts(segments(path@)),
    {
        let p = Ghost(segments(path@));
        let mut inside = self.only.len() == 0;
        let mut i: usize = 0;
        while i < self.only.len() && !inside
            invariant
                i <= self.only@.len(),
                p@ == segments(path@),
                inside ==> (self.only@.len() == 0 || exists|j: int| 0 <= j < self.only@.len() && under(p@, #[trigger] path_list(self.only@)[j])),
                !inside ==> forall|j: int| 0 <= j < i ==> !under(p@, #[trigger] path_list(self.only@)[j]),
                !inside ==> self.only@.len() > 0,
            decreases self.only@.len() - i,
        {
            assert(path_list(self.only@)[i as int] == segments(self.only@[i as int]@));
            if is_under(path, &self.only[i]) {
                assert(under(p@, path_list(self.only@)[i as int]));
                inside = true;
            }
            i = i + 1;
        }
        if !inside {
            return false;
        }
        let mut k: usize = 0;
        while k < self.except.len()
            invariant
                k <= self.except@.len(),
                p@ == segments(path@),
                forall|j: int| 0 <= j < k ==> !under(p@, #[trigger] path_list(self.except@)[j]),
            decreases self.except@.len() - k,
        {
            assert(path_list(self.except@)[k as int] == segments(self.except@[k as int]@));
            if is_under(path, &self.except[k]) {
                assert(under(p@, path_list(self.except@)[k as int]));
                return false;
            }
            k = k + 1;
        }
        true
    }
}

} // verus!
