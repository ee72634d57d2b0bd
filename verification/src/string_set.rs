//! A set of strings, and the order in which strings are listed.

use vstd::prelude::*;
use crate::text::{chars_of, views, str_eq};

verus! {

/// `a` comes before `b` in the order of strings: at the first index at which
/// they differ `a` has the lesser character, or `a` is a proper prefix of `b`.
pub open spec fn lex_lt(a: Seq<char>, b: Seq<char>) -> bool
    decreases a.len(),
{
    if b.len() == 0 {
        false
    } else if a.len() == 0 {
        true
    } else if a[0] != b[0] {
        a[0] < b[0]
    } else {
        lex_lt(a.drop_first(), b.drop_first())
    }
}

/// No string comes before itself.
pub proof fn lemma_lex_irreflexive(a: Seq<char>)
    ensures
        !lex_lt(a, a),
    decreases a.len(),
{
    if a.len() > 0 {
        lemma_lex_irreflexive(a.drop_first());
    }
}

/// Of two different strings exactly one comes before the other.
pub proof fn lemma_lex_total(a: Seq<char>, b: Seq<char>)
    ensures
        a == b || lex_lt(a, b) || lex_lt(b, a),
        !(lex_lt(a, b) && lex_lt(b, a)),
    decreases a.len(),
{
    if a.len() == 0 || b.len() == 0 {
        if a.len() == 0 && b.len() == 0 {
            assert(a =~= b);
        }
    } else if a[0] != b[0] {
    } else {
        lemma_lex_total(a.drop_first(), b.drop_first());
        if a.drop_first() == b.drop_first() {
            assert(a =~= seq![a[0]] + a.drop_first());
            assert(b =~= seq![b[0]] + b.drop_first());
        }
    }
}

/// Whether `a` comes before `b` in the order of strings.
pub fn lex_less(a: &Vec<char>, b: &Vec<char>) -> (less: bool)
    ensures
        less == lex_lt(a@, b@),
{
    let mut i: usize = 0;
    proof {
        assert(a@.subrange(0, a.len() as int) =~= a@);
        assert(b@.subrange(0, b.len() as int) =~= b@);
    }
    while i < a.len() && i < b.len()
        invariant
            i <= a.len(),
            i <= b.len(),
            lex_lt(a@, b@) == lex_lt(a@.subrange(i as int, a.len() as int), b@.subrange(i as int, b.len() as int)),
        decreases a.len() - i,
    {
        let ghost ra = a@.subrange(i as int, a.len() as int);
        let ghost rb = b@.subrange(i as int, b.len() as int);
        if a[i] != b[i] {
            assert(ra[0] == a@[i as int] && rb[0] == b@[i as int]);
            return a[i] < b[i];
        }
        proof {
            assert(ra[0] == a@[i as int] && rb[0] == b@[i as int]);
            assert(ra.drop_first() =~= a@.subrange(i + 1, a.len() as int));
            assert(rb.drop_first() =~= b@.subrange(i + 1, b.len() as int));
        }
        i += 1;
    }
    i < b.len()
}

/// Each string of the list comes before the next.
pub open spec fn ascending(items: Seq<Seq<char>>) -> bool {
    forall|i: int| 0 <= i < items.len() - 1 ==> lex_lt(#[trigger] items[i], items[i + 1])
}

/// A set of strings.
#[derive(Debug)]
pub struct StringSet {
    items: Vec<String>,
}

impl View for StringSet {
    type V = Set<Seq<char>>;

    closed spec fn view(&self) -> Set<Seq<char>> {
        views(self.items@).to_set()
    }
}

impl StringSet {
    /// The empty set.
    pub fn new() -> (out: StringSet)
        ensures
            out@ == Set::<Seq<char>>::empty(),
    {
        let out = StringSet { items: Vec::new() };
        assert(out@ =~= Set::<Seq<char>>::empty());
        out
    }

    /// Whether the set is empty.
    pub fn is_empty(&self) -> (empty: bool)
        ensures
            empty == (self@ == Set::<Seq<char>>::empty()),
    {
        proof {
            if self.items@.len() > 0 {
                assert(views(self.items@)[0] == self.items@[0]@);
                assert(self@.contains(self.items@[0]@));
            } else {
                assert(self@ =~= Set::<Seq<char>>::empty());
            }
        }
        self.items.len() == 0
    }

    /// Where `s` stands in the list, or the length of the list.
    fn index_of(&self, s: &str) -> (i: usize)
        ensures
            i <= self.items@.len(),
            i < self.items@.len() ==> self.items@[i as int]@ == s@,
            forall|j: int| 0 <= j < i ==> self.items@[j]@ != s@,
    {
        let mut i: usize = 0;
        while i < self.items.len()
            invariant
                i <= self.items@.len(),
                forall|j: int| 0 <= j < i ==> self.items@[j]@ != s@,
            decreases self.items.len() - i,
        {
            if str_eq(self.items[i].as_str(), s) {
                return i;
            }
            i += 1;
        }
        i
    }

    /// Whether `s` is in the set.
    pub fn contains(&self, s: &str) -> (yes: bool)
        ensures
            yes == self@.contains(s@),
    {
        let i = self.index_of(s);
        proof {
            let v = views(self.items@);
            if i < self.items@.len() {
                assert(v[i as int] == s@);
            } else if v.contains(s@) {
                let j = choose|j: int| 0 <= j < v.len() && v[j] == s@;
                assert(self.items@[j]@ == s@);
            }
        }
        i < self.items.len()
    }

    /// Adds `s` to the set.
    pub fn insert(&mut self, s: String)
        ensures
            final(self)@ == old(self)@.insert(s@),
    {
        let ghost before = views(self.items@);
        if self.contains(s.as_str()) {
            assert(self@ =~= old(self)@.insert(s@));
        } else {
            self.items.push(s);
            proof {
                let after = views(self.items@);
                assert(after =~= before.push(s@));
                assert forall|x: Seq<char>| after.contains(x) <==> (before.contains(x) || x == s@) by {
                    if before.contains(x) {
                        let j = choose|j: int| 0 <= j < before.len() && before[j] == x;
                        assert(after[j] == x);
                    }
                    if x == s@ {
                        assert(after[after.len() - 1] == x);
                    }
                    if after.contains(x) {
                        let j = choose|j: int| 0 <= j < after.len() && after[j] == x;
                        if j < before.len() {
                            assert(before[j] == x);
                        }
                    }
                }
                assert(self@ =~= old(self)@.insert(s@));
            }
        }
    }

    /// Takes `s` out of the set.
    pub fn remove(&mut self, s: &str)
        ensures
            final(self)@ == old(self)@.remove(s@),
    {
        let ghost start = views(self.items@);
        let mut i: usize = 0;
        while i < self.items.len()
            invariant
                i <= self.items@.len(),
                forall|j: int| 0 <= j < i ==> self.items@[j]@ != s@,
                views(self.items@).to_set().remove(s@) == start.to_set().remove(s@),
            decreases self.items.len() - i,
        {
            if str_eq(self.items[i].as_str(), s) {
                let ghost before = views(self.items@);
                self.items.remove(i);
                proof {
                    let after = views(self.items@);
                    assert(after =~= before.remove(i as int));
                    assert forall|x: Seq<char>| x != s@ implies (after.contains(x) <==> before.contains(
                        x,
                    )) by {
                        if before.contains(x) {
                            let j = choose|j: int| 0 <= j < before.len() && before[j] == x;
                            if j < i {
                                assert(after[j] == x);
                            } else {
                                assert(after[j - 1] == x);
                            }
                        }
                        if after.contains(x) {
                            let j = choose|j: int| 0 <= j < after.len() && after[j] == x;
                            if j < i {
                                assert(before[j] == x);
                            } else {
                                assert(before[j + 1] == x);
                            }
                        }
                    }
                    assert(after.to_set().remove(s@) =~= before.to_set().remove(s@));
                }
            } else {
                i += 1;
            }
        }
        proof {
            let v = views(self.items@);
            if v.contains(s@) {
                let j = choose|j: int| 0 <= j < v.len() && v[j] == s@;
                assert(self.items@[j]@ == s@);
            }
            assert(v.to_set().remove(s@) =~= v.to_set());
        }
    }

    /// The strings of the set in ascending order.
    pub fn sorted(&self) -> (out: Vec<String>)
        ensures
            ascending(views(out@)),
            views(out@).to_set() == self@,
    {
        let mut out: Vec<String> = Vec::new();
        let mut k: usize = 0;
        assert(views(out@).to_set() =~= views(self.items@).subrange(0, 0).to_set());
        while k < self.items.len()
            invariant
                k <= self.items@.len(),
                ascending(views(out@)),
                views(out@).to_set() == views(self.items@).subrange(0, k as int).to_set(),
            decreases self.items.len() - k,
        {
            let x = self.items[k].clone();
            let xc = chars_of(x.as_str());
            let ghost before = views(out@);
            // Find the first string that does not come before `x`.
            let mut i: usize = 0;
            while i < out.len() && lex_less(&chars_of(out[i].as_str()), &xc)
                invariant
                    i <= out@.len(),
                    xc@ == x@,
                    before == views(out@),
                    forall|j: int| 0 <= j < i ==> lex_lt(#[trigger] before[j], x@),
                decreases out.len() - i,
            {
                assert(before[i as int] == out@[i as int]@);
                i += 1;
            }
            let dup = i < out.len() && str_eq(out[i].as_str(), x.as_str());
            proof {
                let src0 = views(self.items@).subrange(0, k as int);
                let src1 = views(self.items@).subrange(0, k + 1);
                assert(src1 =~= src0.push(x@));
                assert forall|y: Seq<char>| src1.contains(y) <==> (src0.contains(y) || y == x@) by {
                    if src0.contains(y) {
                        let j = choose|j: int| 0 <= j < src0.len() && src0[j] == y;
                        assert(src1[j] == y);
                    }
                    if y == x@ {
                        assert(src1[src1.len() - 1] == y);
                    }
                    if src1.contains(y) {
                        let j = choose|j: int| 0 <= j < src1.len() && src1[j] == y;
                        if j < src0.len() {
                            assert(src0[j] == y);
                        }
                    }
                }
                assert(src1.to_set() =~= src0.to_set().insert(x@));
            }
            if dup {
                proof {
                    assert(before[i as int] == x@);
                    assert(before.contains(x@));
                    assert(before.to_set().insert(x@) =~= before.to_set());
                }
            } else {
                out.insert(i, x);
                proof {
                    let after = views(out@);
                    assert(after =~= before.insert(i as int, x@));
                    assert forall|j: int| 0 <= j < after.len() - 1 implies lex_lt(
                        #[trigger] after[j],
                        after[j + 1],
                    ) by {
                        if j + 1 < i {
                            assert(lex_lt(before[j], before[j + 1]));
                        } else if j + 1 == i {
                            assert(lex_lt(before[j], x@));
                        } else if j == i {
                            lemma_lex_total(x@, before[i as int]);
                        } else {
                            assert(lex_lt(before[j - 1], before[j]));
                        }
                    }
                    assert forall|y: Seq<char>| after.contains(y) <==> (before.contains(y) || y == x@) by {
                        if before.contains(y) {
                            let j = choose|j: int| 0 <= j < before.len() && before[j] == y;
                            if j < i {
                                assert(after[j] == y);
                            } else {
                                assert(after[j + 1] == y);
                            }
                        }
                        if y == x@ {
                            assert(after[i as int] == y);
                        }
                        if after.contains(y) {
                            let j = choose|j: int| 0 <= j < after.len() && after[j] == y;
                            if j < i {
                                assert(before[j] == y);
                            } else if j > i {
                                assert(before[j - 1] == y);
                            }
                        }
                    }
                    assert(after.to_set() =~= before.to_set().insert(x@));
                }
            }
            k += 1;
        }
        assert(views(self.items@).subrange(0, k as int) =~= views(self.items@));
        out
    }
}

} // verus!
