//! A set of names in which ASCII case does not distinguish members.
//!
//! Names are kept in ascending `String` order, which is the order a
//! `BTreeSet<String>` walks them in, and no two members are equal when ASCII
//! case is ignored: adding a name that differs from a member only in case
//! keeps the member that was there first.

use vstd::prelude::*;

use crate::text::{
    chars_of, eq_ignore_ascii_case_range, eq_ignore_ascii_case_seq, lemma_code_points_injective,
    lemma_lex_total, lemma_lex_transitive,
    code_points, str_less, str_lt,
};

verus! {

/// `s` is in strictly ascending order.
pub open spec fn names_sorted(s: Seq<Seq<char>>) -> bool {
    forall|i: int, j: int| 0 <= i < j < s.len() ==> str_lt(#[trigger] s[i], #[trigger] s[j])
}

/// No two entries of `s` are equal when ASCII case is ignored.
pub open spec fn ci_distinct(s: Seq<Seq<char>>) -> bool {
    forall|i: int, j: int|
        0 <= i < s.len() && 0 <= j < s.len() && i != j ==> !eq_ignore_ascii_case_seq(
            #[trigger] s[i],
            #[trigger] s[j],
        )
}

/// Some member of `s` equals `v` when ASCII case is ignored.
pub open spec fn ci_member(s: Set<Seq<char>>, v: Seq<char>) -> bool {
    exists|x: Seq<char>| s.contains(x) && eq_ignore_ascii_case_seq(x, v)
}

/// No two members of `s` are equal when ASCII case is ignored.
pub open spec fn ci_distinct_set(s: Set<Seq<char>>) -> bool {
    forall|x: Seq<char>, y: Seq<char>|
        s.contains(x) && s.contains(y) && eq_ignore_ascii_case_seq(x, y) ==> x == y
}

/// Adding `v` to `s` unless a member equals it ignoring ASCII case.
pub open spec fn insert_ci(s: Set<Seq<char>>, v: Seq<char>) -> Set<Seq<char>> {
    if ci_member(s, v) {
        s
    } else {
        s.insert(v)
    }
}

/// The character sequences of a sequence of strings.
pub open spec fn string_views(v: Seq<String>) -> Seq<Seq<char>> {
    v.map_values(|s: String| s@)
}

/// Does some string of `items` have the same characters as `value`?
pub fn contains_string(items: &Vec<String>, value: &String) -> (r: bool)
    ensures
        r == string_views(items@).contains(value@),
{
    let mut i: usize = 0;
    while i < items.len()
        invariant
            i <= items@.len(),
            forall|j: int| 0 <= j < i ==> items@[j]@ != value@,
        decreases items.len() - i,
    {
        if items[i] == *value {
            proof {
                assert(string_views(items@)[i as int] == value@);
            }
            return true;
        }
        i += 1;
    }
    false
}

#[derive(Debug, PartialEq, Eq)]
pub struct NameSet {
    names: Vec<String>,
}

impl NameSet {
    /// The members in ascending order.
    pub closed spec fn elems(&self) -> Seq<Seq<char>> {
        string_views(self.names@)
    }

    /// The members are in ascending order, no two equal ignoring ASCII case.
    #[verifier::type_invariant]
    pub closed spec fn inv(&self) -> bool {
        names_sorted(self.elems()) && ci_distinct(self.elems())
    }

    /// What the set holds, and that it is ordered and case-distinct.
    pub proof fn lemma_shape(&self)
        requires
            self.inv(),
        ensures
            names_sorted(self.elems()),
            ci_distinct(self.elems()),
            self.elems().no_duplicates(),
            self@ == self.elems().to_set(),
            self@.finite(),
            self@.len() == self.elems().len(),
            ci_distinct_set(self@),
    {
        let e = self.elems();
        assert forall|i: int, j: int| 0 <= i < e.len() && 0 <= j < e.len() && i != j implies e[i]
            != e[j] by {
            if e[i] == e[j] {
                assert(eq_ignore_ascii_case_seq(e[i], e[j]));
            }
        }
        e.unique_seq_to_set();
        assert forall|x: Seq<char>, y: Seq<char>|
            self@.contains(x) && self@.contains(y) && eq_ignore_ascii_case_seq(x, y) implies x
            == y by {
            let i = choose|i: int| 0 <= i < e.len() && e[i] == x;
            let j = choose|j: int| 0 <= j < e.len() && e[j] == y;
            if i != j {
                assert(!eq_ignore_ascii_case_seq(e[i], e[j]));
            }
        }
    }

    pub fn new() -> (r: Self)
        ensures
            r@ == Set::<Seq<char>>::empty(),
            r.elems().len() == 0,
    {
        let r = NameSet { names: Vec::new() };
        proof {
            assert(r.elems() =~= Seq::<Seq<char>>::empty());
            assert(r.elems().to_set() =~= Set::<Seq<char>>::empty());
        }
        r
    }

    /// The number of members.
    pub fn len(&self) -> (r: usize)
        ensures
            r == self@.len(),
    {
        proof {
            use_type_invariant(&*self);
            self.lemma_shape();
        }
        self.names.len()
    }

    pub fn is_empty(&self) -> (r: bool)
        ensures
            r == (self@.len() == 0),
    {
        self.len() == 0
    }

    /// The members, in ascending order.
    pub fn to_vec(&self) -> (r: Vec<String>)
        ensures
            string_views(r@) == self.elems(),
            string_views(r@).to_set() == self@,
            names_sorted(string_views(r@)),
            ci_distinct(string_views(r@)),
    {
        proof {
            use_type_invariant(&*self);
            self.lemma_shape();
        }
        let r = self.names.clone();
        proof {
            assert(string_views(r@) =~= self.elems()) by {
                assert forall|i: int| 0 <= i < r@.len() implies r@[i] == self.names@[i] by {
                    assert(cloned::<String>(self.names[i], r[i]));
                }
            }
        }
        r
    }

    /// Is there a member equal to `value` when ASCII case is ignored?
    pub fn contains_ci(&self, value: &str) -> (r: bool)
        ensures
            r == ci_member(self@, value@),
    {
        proof {
            use_type_invariant(&*self);
            self.lemma_shape();
        }
        let v = chars_of(value);
        match self.find_ci(v.as_slice()) {
            Some(_) => true,
            None => false,
        }
    }

    /// Is `value` itself a member?
    pub fn contains(&self, value: &str) -> (r: bool)
        ensures
            r == self@.contains(value@),
    {
        proof {
            use_type_invariant(&*self);
            self.lemma_shape();
        }
        let v = chars_of(value);
        let n = self.names.len();
        let mut i: usize = 0;
        while i < n
            invariant
                n == self.names@.len() == self.elems().len(),
                i <= n,
                v@ == value@,
                self@ == self.elems().to_set(),
                forall|k: int| 0 <= k < i ==> self.elems()[k] != v@,
            decreases n - i,
        {
            let m = chars_of(self.names[i].as_str());
            proof {
                assert(self.elems()[i as int] == self.names@[i as int]@);
            }
            if m.len() == v.len() {
                let mut j: usize = 0;
                let mut same = true;
                while j < m.len()
                    invariant
                        j <= m.len() == v.len(),
                        same ==> forall|k: int| 0 <= k < j ==> m@[k] == v@[k],
                        !same ==> m@ != v@,
                    decreases m.len() - j,
                {
                    if m[j] != v[j] {
                        same = false;
                    }
                    j += 1;
                }
                if same {
                    proof {
                        assert(m@ =~= v@);
                    }
                    return true;
                }
            }
            i += 1;
        }
        proof {
            if self@.contains(value@) {
                let k = choose|k: int| 0 <= k < self.elems().len() && self.elems()[k] == value@;
                assert(self.elems()[k] != v@);
            }
        }
        false
    }

    /// The index of a member equal to `v` ignoring ASCII case.
    fn find_ci(&self, v: &[char]) -> (r: Option<usize>)
        ensures
            match r {
                Some(i) => i < self.elems().len() && eq_ignore_ascii_case_seq(
                    self.elems()[i as int],
                    v@,
                ),
                None => forall|k: int|
                    0 <= k < self.elems().len() ==> !eq_ignore_ascii_case_seq(
                        #[trigger] self.elems()[k],
                        v@,
                    ),
            },
            r is None <==> !ci_member(self@, v@),
    {
        proof {
            use_type_invariant(&*self);
            self.lemma_shape();
        }
        let n = self.names.len();
        let mut i: usize = 0;
        while i < n
            invariant
                n == self.names@.len() == self.elems().len(),
                i <= n,
                self@ == self.elems().to_set(),
                forall|k: int|
                    0 <= k < i ==> !eq_ignore_ascii_case_seq(#[trigger] self.elems()[k], v@),
            decreases n - i,
        {
            let m = chars_of(self.names[i].as_str());
            proof {
                assert(self.elems()[i as int] == self.names@[i as int]@);
                assert(m@.subrange(0, m@.len() as int) =~= m@);
                assert(v@.subrange(0, v@.len() as int) =~= v@);
            }
            if eq_ignore_ascii_case_range(m.as_slice(), 0, m.len(), v, 0, v.len()) {
                proof {
                    assert(self@.contains(self.elems()[i as int]));
                }
                return Some(i);
            }
            i += 1;
        }
        proof {
            if ci_member(self@, v@) {
                let x = choose|x: Seq<char>| self@.contains(x) && eq_ignore_ascii_case_seq(x, v@);
                let k = choose|k: int| 0 <= k < self.elems().len() && self.elems()[k] == x;
                assert(!eq_ignore_ascii_case_seq(self.elems()[k], v@));
            }
        }
        None
    }

    /// Adds `value` unless a member equals it when ASCII case is ignored.
    pub fn insert_ci(&mut self, value: String)
        ensures
            final(self)@ == insert_ci(old(self)@, value@),
            final(self)@.finite(),
            ci_distinct_set(final(self)@),
    {
        proof {
            use_type_invariant(&*self);
            self.lemma_shape();
        }
        let v = chars_of(value.as_str());
        if self.find_ci(v.as_slice()).is_some() {
            return;
        }
        let ghost old_e = self.elems();
        let n = self.names.len();
        let mut p: usize = 0;
        while p < n
            invariant
                n == self.names@.len() == old_e.len(),
                old_e == self.elems(),
                p <= n,
                v@ == value@,
                forall|k: int| 0 <= k < p ==> !str_lt(v@, #[trigger] old_e[k]),
            ensures
                p <= n,
                p < n ==> str_lt(v@, old_e[p as int]),
                forall|k: int| 0 <= k < p ==> !str_lt(v@, #[trigger] old_e[k]),
            decreases n - p,
        {
            let m = chars_of(self.names[p].as_str());
            proof {
                assert(old_e[p as int] == self.names@[p as int]@);
            }
            if str_less(v.as_slice(), m.as_slice()) {
                break;
            }
            p += 1;
        }
        proof {
            // Every member before `p` is smaller than `v`, every one from `p` on is larger.
            assert forall|k: int| 0 <= k < p implies str_lt(#[trigger] old_e[k], v@) by {
                lemma_lex_total(code_points(old_e[k]), code_points(v@));
                if code_points(old_e[k]) == code_points(v@) {
                    lemma_code_points_injective(old_e[k], v@);
                    assert(eq_ignore_ascii_case_seq(old_e[k], v@));
                }
            }
            assert forall|k: int| p <= k < n implies str_lt(v@, #[trigger] old_e[k]) by {
                if k > p {
                    lemma_lex_transitive(
                        code_points(v@),
                        code_points(old_e[p as int]),
                        code_points(old_e[k]),
                    );
                }
            }
        }
        let mut names: Vec<String> = Vec::new();
        std::mem::swap(&mut names, &mut self.names);
        names.insert(p, value);
        proof {
            let e = string_views(names@);
            assert(e =~= old_e.insert(p as int, v@));
            assert forall|i: int, j: int| 0 <= i < j < e.len() implies str_lt(
                #[trigger] e[i],
                #[trigger] e[j],
            ) by {
                if j < p {
                } else if j == p {
                } else if i < p {
                    lemma_lex_transitive(
                        code_points(e[i]),
                        code_points(v@),
                        code_points(e[j]),
                    );
                } else if i == p {
                } else {
                    assert(e[i] == old_e[i - 1]);
                    assert(e[j] == old_e[j - 1]);
                }
            }
            assert forall|i: int, j: int|
                0 <= i < e.len() && 0 <= j < e.len() && i != j implies !eq_ignore_ascii_case_seq(
                #[trigger] e[i],
                #[trigger] e[j],
            ) by {
                if i == p {
                    let k = if j < p {
                        j
                    } else {
                        j - 1
                    };
                    assert(e[j] == old_e[k]);
                    crate::text::lemma_eq_ci_symmetric(e[j], v@);
                } else if j == p {
                    let k = if i < p {
                        i
                    } else {
                        i - 1
                    };
                    assert(e[i] == old_e[k]);
                } else {
                    let ki = if i < p {
                        i
                    } else {
                        i - 1
                    };
                    let kj = if j < p {
                        j
                    } else {
                        j - 1
                    };
                    assert(e[i] == old_e[ki]);
                    assert(e[j] == old_e[kj]);
                }
            }
            assert(e.to_set() =~= old_e.to_set().insert(v@)) by {
                assert forall|x: Seq<char>| e.to_set().contains(x) implies old_e.to_set().insert(
                    v@,
                ).contains(x) by {
                    let i = choose|i: int| 0 <= i < e.len() && e[i] == x;
                    if i < p {
                        assert(old_e[i] == x);
                    } else if i > p {
                        assert(old_e[i - 1] == x);
                    }
                }
                assert forall|x: Seq<char>| old_e.to_set().insert(v@).contains(x) implies e.to_set().contains(
                    x,
                ) by {
                    if x == v@ {
                        assert(e[p as int] == x);
                    } else {
                        let i = choose|i: int| 0 <= i < old_e.len() && old_e[i] == x;
                        if i < p {
                            assert(e[i] == x);
                        } else {
                            assert(e[i + 1] == x);
                        }
                    }
                }
            }
        }
        self.names = names;
    }
}

impl View for NameSet {
    type V = Set<Seq<char>>;

    closed spec fn view(&self) -> Set<Seq<char>> {
        self.elems().to_set()
    }
}

} // verus!
