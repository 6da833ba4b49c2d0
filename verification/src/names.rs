//! Hierarchical names.
use crate::level::NamePtr;
use vstd::prelude::*;
use vstd::string::StrSliceExecFns;

verus! {

/// One name, its prefix named by position.
pub enum Name {
    Anon,
    Str(NamePtr, String),
    Num(NamePtr, u64),
}

/// Names, each named by its position.
pub struct NameTable {
    pub nodes: Vec<Name>,
}

impl NameTable {
    /// The last component of `n`, where that is a string.
    pub open spec fn last(&self, n: NamePtr) -> Option<Seq<char>> {
        if n < self.nodes@.len() {
            match self.nodes@[n as int] {
                Name::Str(_, s) => Some(s@),
                _ => None,
            }
        } else {
            None
        }
    }

    /// The last component of the prefix of `n`, where both are strings.
    pub open spec fn before_last(&self, n: NamePtr) -> Option<Seq<char>> {
        if n < self.nodes@.len() {
            match self.nodes@[n as int] {
                Name::Str(p, _) => self.last(p),
                _ => None,
            }
        } else {
            None
        }
    }

    /// The name of a definition the equation compiler generates to implement
    /// matching or structural recursion.
    pub open spec fn is_wrapper(&self, n: NamePtr) -> bool {
        self.last(n) matches Some(s) && (s == "casesOn"@ || s == "recOn"@ || s == "brecOn"@ || s == "binductionOn"@ || s
            == "_f"@ || "match_"@.is_prefix_of(s) || "_sparseCasesOn"@.is_prefix_of(s)
                || (s == "go"@ && self.before_last(n)
            == Some("brecOn"@)))
    }

    /// The last component of `n`, where that is a string.
    fn last_of(&self, n: NamePtr) -> (r: Option<&String>)
        ensures
            match r {
                Some(s) => self.last(n) == Some(s@),
                None => self.last(n) is None,
            },
    {
        if (n as usize) < self.nodes.len() {
            match &self.nodes[n as usize] {
                Name::Str(_, s) => Some(s),
                _ => None,
            }
        } else {
            None
        }
    }

    /// Whether `n` is a definition the equation compiler generates to
    /// implement matching or structural recursion.
    pub fn is_recursion_wrapper(&self, n: NamePtr) -> (r: bool)
        ensures
            r == self.is_wrapper(n),
    {
        let s = match self.last_of(n) {
            Some(s) => s.as_str(),
            None => {
                return false;
            },
        };
        if same(s, "casesOn") || same(s, "recOn") || same(s, "brecOn") || same(s, "binductionOn") || same(s, "_f") {
            return true;
        }
        if starts_with(s, "match_") || starts_with(s, "_sparseCasesOn") {
            return true;
        }
        if !same(s, "go") {
            return false;
        }
        match &self.nodes[n as usize] {
            Name::Str(p, _) => match self.last_of(*p) {
                Some(q) => same(q.as_str(), "brecOn"),
                None => false,
            },
            _ => false,
        }
    }
}

/// Whether `s` begins with `p`.
pub fn starts_with(s: &str, p: &str) -> (r: bool)
    ensures
        r == p@.is_prefix_of(s@),
{
    let n: usize = p.unicode_len();
    if s.unicode_len() < n {
        return false;
    }
    let mut i: usize = 0;
    while i < n
        invariant
            n == p@.len(),
            n <= s@.len(),
            i <= n,
            forall|j: int| 0 <= j < i ==> s@[j] == p@[j],
        decreases n - i,
    {
        if s.get_char(i) != p.get_char(i) {
            assert(s@.subrange(0, n as int)[i as int] != p@[i as int]);
            return false;
        }
        i += 1;
    }
    assert(s@.subrange(0, n as int) =~= p@);
    true
}

/// Whether two strings hold the same characters.
pub fn same(s: &str, p: &str) -> (r: bool)
    ensures
        r == (s@ == p@),
{
    if s.unicode_len() != p.unicode_len() {
        return false;
    }
    let r = starts_with(s, p);
    proof {
        assert(s@.subrange(0, s@.len() as int) =~= s@);
    }
    r
}

} // verus!
