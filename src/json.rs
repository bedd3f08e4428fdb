use vstd::prelude::*;

verus! {

/// A JSON document as the ingestion engine reads it. Object members keep the
/// order in which the document lists them; a number keeps its decimal text.
#[derive(Debug, PartialEq)]
pub enum Json {
    Null,
    Bool(bool),
    Number(String),
    Str(String),
    Array(Vec<Json>),
    Object(Vec<(String, Json)>),
}

/// The value of the first member of `members` whose key is `key`.
pub open spec fn member(members: Seq<(String, Json)>, key: Seq<char>) -> Option<Json>
    decreases members.len(),
{
    if members.len() == 0 {
        None
    } else if members[0].0@ == key {
        Some(members[0].1)
    } else {
        member(members.drop_first(), key)
    }
}

/// Character-wise equality of two strings.
pub fn str_eq(a: &str, b: &str) -> (r: bool)
    ensures
        r == (a@ == b@),
{
    let n = a.unicode_len();
    if n != b.unicode_len() {
        return false;
    }
    let mut i: usize = 0;
    while i < n
        invariant
            n == a@.len(),
            n == b@.len(),
            i <= n,
            a@.subrange(0, i as int) == b@.subrange(0, i as int),
        decreases n - i,
    {
        if a.get_char(i) != b.get_char(i) {
            return false;
        }
        assert(a@.subrange(0, i + 1) =~= a@.subrange(0, i as int).push(a@[i as int]));
        assert(b@.subrange(0, i + 1) =~= b@.subrange(0, i as int).push(b@[i as int]));
        i = i + 1;
    }
    assert(a@ =~= a@.subrange(0, n as int));
    assert(b@ =~= b@.subrange(0, n as int));
    true
}

/// Looks up the first member named `key`.
pub fn find_member<'a>(members: &'a Vec<(String, Json)>, key: &str) -> (r: Option<&'a Json>)
    ensures
        r matches Some(v) ==> member(members@, key@) == Some(*v),
        r is None ==> member(members@, key@) is None,
{
    let mut i: usize = 0;
    assert(members@.skip(0) =~= members@);
    while i < members.len()
        invariant
            i <= members@.len(),
            member(members@, key@) == member(members@.skip(i as int), key@),
        decreases members@.len() - i,
    {
        assert(members@.skip(i as int).drop_first() =~= members@.skip(i + 1));
        if str_eq(members[i].0.as_str(), key) {
            return Some(&members[i].1);
        }
        i = i + 1;
    }
    None
}

} // verus!
