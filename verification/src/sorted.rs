//! A set of strings kept in ascending order: the form in which locales and
//! keys are collected before they are written out.

use crate::text::{
    lemma_lex_lt_asymmetric, lemma_lex_lt_irreflexive, lemma_lex_lt_total,
    lemma_lex_lt_transitive, lex_lt, str_lt, str_views,
};
use vstd::prelude::*;
use vstd::string::*;

verus! {

/// Each string sorts strictly before those that follow it.
pub open spec fn strictly_sorted(s: Seq<Seq<char>>) -> bool {
    forall|i: int, j: int| 0 <= i < j < s.len() ==> lex_lt(#[trigger] s[i], #[trigger] s[j])
}

/// The members of `set` in ascending order.
pub open spec fn sorted_seq(set: Set<Seq<char>>) -> Seq<Seq<char>> {
    choose|s: Seq<Seq<char>>| strictly_sorted(s) && s.to_set() == set
}

/// The members of `set` in ascending order, or in descending order when
/// `reverse` is set.
pub open spec fn ordered_seq(set: Set<Seq<char>>, reverse: bool) -> Seq<Seq<char>> {
    if reverse {
        sorted_seq(set).reverse()
    } else {
        sorted_seq(set)
    }
}

/// The members of a prefix that is one longer: those of the prefix and the
/// element that comes next.
pub proof fn lemma_take_next_to_set<A>(s: Seq<A>, i: int)
    requires
        0 <= i < s.len(),
    ensures
        s.take(i + 1).to_set() == s.take(i).to_set().insert(s[i]),
{
    let short = s.take(i);
    let long = s.take(i + 1);
    assert forall|v: A| long.to_set().contains(v) <==> short.to_set().insert(s[i]).contains(v) by {
        if long.to_set().contains(v) {
            let k = choose|k: int| 0 <= k < long.len() && long[k] == v;
            if k < i {
                assert(short[k] == v);
            }
        }
        if short.to_set().contains(v) {
            let k = choose|k: int| 0 <= k < short.len() && short[k] == v;
            assert(long[k] == v);
        }
        if v == s[i] {
            assert(long[i] == v);
        }
    }
    assert(long.to_set() =~= short.to_set().insert(s[i]));
}

/// A strictly sorted sequence holds no string twice.
pub proof fn lemma_sorted_no_duplicates(s: Seq<Seq<char>>)
    requires
        strictly_sorted(s),
    ensures
        s.no_duplicates(),
{
    assert forall|i: int, j: int| 0 <= i < s.len() && 0 <= j < s.len() && i != j implies s[i]
        != s[j] by {
        lemma_lex_lt_irreflexive(s[i]);
        if i < j {
            assert(lex_lt(s[i], s[j]));
        } else {
            assert(lex_lt(s[j], s[i]));
        }
    }
}

/// Two strictly sorted sequences with the same members are equal: a set has
/// one ascending order.
pub proof fn lemma_sorted_unique(a: Seq<Seq<char>>, b: Seq<Seq<char>>)
    requires
        strictly_sorted(a),
        strictly_sorted(b),
        a.to_set() == b.to_set(),
    ensures
        a == b,
    decreases a.len(),
{
    if a.len() == 0 {
        if b.len() > 0 {
            assert(b.to_set().contains(b[0]));
            assert(a.to_set().contains(b[0]));
        }
        assert(a =~= b);
    } else if b.len() == 0 {
        assert(a.to_set().contains(a[0]));
        assert(b.to_set().contains(a[0]));
    } else {
        // The least member stands first in both.
        assert(a.to_set().contains(a[0]));
        assert(b.to_set().contains(a[0]));
        assert(b.to_set().contains(b[0]));
        assert(a.to_set().contains(b[0]));
        let i = choose|i: int| 0 <= i < b.len() && b[i] == a[0];
        let j = choose|j: int| 0 <= j < a.len() && a[j] == b[0];
        if i > 0 && j > 0 {
            assert(lex_lt(b[0], b[i]));
            assert(lex_lt(a[0], a[j]));
            lemma_lex_lt_asymmetric(a[0], b[0]);
        }
        if i > 0 && j == 0 {
            assert(lex_lt(b[0], b[i]));
            lemma_lex_lt_irreflexive(a[0]);
        }
        if i == 0 && j > 0 {
            assert(lex_lt(a[0], a[j]));
            lemma_lex_lt_irreflexive(a[0]);
        }
        assert(a[0] == b[0]);
        let ta = a.drop_first();
        let tb = b.drop_first();
        assert(strictly_sorted(ta)) by {
            assert forall|x: int, y: int| 0 <= x < y < ta.len() implies lex_lt(
                #[trigger] ta[x],
                #[trigger] ta[y],
            ) by {
                assert(lex_lt(a[x + 1], a[y + 1]));
            }
        }
        assert(strictly_sorted(tb)) by {
            assert forall|x: int, y: int| 0 <= x < y < tb.len() implies lex_lt(
                #[trigger] tb[x],
                #[trigger] tb[y],
            ) by {
                assert(lex_lt(b[x + 1], b[y + 1]));
            }
        }
        lemma_sorted_no_duplicates(a);
        lemma_sorted_no_duplicates(b);
        assert forall|v: Seq<char>| ta.to_set().contains(v) <==> tb.to_set().contains(v) by {
            if ta.to_set().contains(v) {
                let x = choose|x: int| 0 <= x < ta.len() && ta[x] == v;
                assert(a[x + 1] == v);
                assert(a.to_set().contains(v));
                assert(b.to_set().contains(v));
                let y = choose|y: int| 0 <= y < b.len() && b[y] == v;
                assert(y != 0);
                assert(tb[y - 1] == v);
            }
            if tb.to_set().contains(v) {
                let x = choose|x: int| 0 <= x < tb.len() && tb[x] == v;
                assert(b[x + 1] == v);
                assert(b.to_set().contains(v));
                assert(a.to_set().contains(v));
                let y = choose|y: int| 0 <= y < a.len() && a[y] == v;
                assert(y != 0);
                assert(ta[y - 1] == v);
            }
        }
        assert(ta.to_set() =~= tb.to_set());
        lemma_sorted_unique(ta, tb);
        assert(a =~= seq![a[0]] + ta);
        assert(b =~= seq![b[0]] + tb);
    }
}

/// A strictly sorted sequence is the ascending order of its members.
pub proof fn lemma_sorted_seq_of(s: Seq<Seq<char>>)
    requires
        strictly_sorted(s),
    ensures
        sorted_seq(s.to_set()) == s,
{
    let t = sorted_seq(s.to_set());
    assert(strictly_sorted(t) && t.to_set() == s.to_set());
    lemma_sorted_unique(t, s);
}

/// A strictly sorted sequence with one more member: `x` is put where it
/// belongs, unless the sequence holds it already.
pub open spec fn with_member(s: Seq<Seq<char>>, x: Seq<char>) -> Seq<Seq<char>>
    decreases s.len(),
{
    if s.len() == 0 {
        seq![x]
    } else if lex_lt(s.last(), x) {
        s.push(x)
    } else if s.last() == x {
        s
    } else {
        with_member(s.drop_last(), x).push(s.last())
    }
}

/// Putting a member into a strictly sorted sequence keeps it strictly
/// sorted and adds the member to its members.
pub proof fn lemma_with_member(s: Seq<Seq<char>>, x: Seq<char>)
    requires
        strictly_sorted(s),
    ensures
        strictly_sorted(with_member(s, x)),
        with_member(s, x).to_set() == s.to_set().insert(x),
    decreases s.len(),
{
    let w = with_member(s, x);
    if s.len() == 0 {
        assert(w.to_set() =~= s.to_set().insert(x)) by {
            assert(w[0] == x);
            assert forall|v: Seq<char>| w.to_set().contains(v) <==> s.to_set().insert(x).contains(
                v,
            ) by {
                if w.to_set().contains(v) {
                    let k = choose|k: int| 0 <= k < w.len() && w[k] == v;
                }
            }
        }
    } else if lex_lt(s.last(), x) {
        assert forall|i: int, j: int| 0 <= i < j < w.len() implies lex_lt(
            #[trigger] w[i],
            #[trigger] w[j],
        ) by {
            if j == s.len() {
                if i < s.len() - 1 {
                    assert(lex_lt(s[i], s[s.len() - 1]));
                    lemma_lex_lt_transitive(s[i], s.last(), x);
                }
            } else {
                assert(lex_lt(s[i], s[j]));
            }
        }
        assert(w.to_set() =~= s.to_set().insert(x)) by {
            assert forall|v: Seq<char>| w.to_set().contains(v) <==> s.to_set().insert(x).contains(
                v,
            ) by {
                if w.to_set().contains(v) {
                    let k = choose|k: int| 0 <= k < w.len() && w[k] == v;
                    if k < s.len() {
                        assert(s[k] == v);
                    }
                }
                if s.to_set().contains(v) {
                    let k = choose|k: int| 0 <= k < s.len() && s[k] == v;
                    assert(w[k] == v);
                }
                if v == x {
                    assert(w[s.len() as int] == v);
                }
            }
        }
    } else if s.last() == x {
        assert(s.to_set().contains(x)) by {
            assert(s[s.len() - 1] == x);
        }
        assert(w.to_set() =~= s.to_set().insert(x));
    } else {
        let shorter = s.drop_last();
        let inner = with_member(shorter, x);
        assert(strictly_sorted(shorter)) by {
            assert forall|i: int, j: int| 0 <= i < j < shorter.len() implies lex_lt(
                #[trigger] shorter[i],
                #[trigger] shorter[j],
            ) by {
                assert(lex_lt(s[i], s[j]));
            }
        }
        lemma_with_member(shorter, x);
        lemma_lex_lt_total(s.last(), x);
        assert forall|i: int| 0 <= i < inner.len() implies lex_lt(#[trigger] inner[i], s.last()) by {
            assert(inner.to_set().contains(inner[i]));
            if inner[i] != x {
                assert(shorter.to_set().contains(inner[i]));
                let k = choose|k: int| 0 <= k < shorter.len() && shorter[k] == inner[i];
                assert(lex_lt(s[k], s[s.len() - 1]));
            }
        }
        assert forall|i: int, j: int| 0 <= i < j < w.len() implies lex_lt(
            #[trigger] w[i],
            #[trigger] w[j],
        ) by {
            if j == inner.len() {
                assert(w[i] == inner[i]);
            } else {
                assert(lex_lt(inner[i], inner[j]));
            }
        }
        assert(w.to_set() =~= s.to_set().insert(x)) by {
            assert forall|v: Seq<char>| w.to_set().contains(v) <==> s.to_set().insert(x).contains(
                v,
            ) by {
                if w.to_set().contains(v) {
                    let k = choose|k: int| 0 <= k < w.len() && w[k] == v;
                    if k < inner.len() {
                        assert(inner[k] == v);
                        assert(inner.to_set().contains(v));
                        if v != x {
                            assert(shorter.to_set().contains(v));
                            let m = choose|m: int| 0 <= m < shorter.len() && shorter[m] == v;
                            assert(s[m] == v);
                        }
                    } else {
                        assert(s[s.len() - 1] == v);
                    }
                }
                if s.to_set().contains(v) {
                    let k = choose|k: int| 0 <= k < s.len() && s[k] == v;
                    if k < shorter.len() {
                        assert(shorter[k] == v);
                        assert(shorter.to_set().contains(v));
                        assert(inner.to_set().contains(v));
                        let m = choose|m: int| 0 <= m < inner.len() && inner[m] == v;
                        assert(w[m] == v);
                    } else {
                        assert(w[inner.len() as int] == v);
                    }
                }
                if v == x {
                    assert(inner.to_set().contains(v));
                    let m = choose|m: int| 0 <= m < inner.len() && inner[m] == v;
                    assert(w[m] == v);
                }
            }
        }
    }
}

/// Every finite set of strings has an ascending order: `sorted_seq` of it is
/// strictly sorted and holds exactly its members.
pub proof fn lemma_sorted_seq(set: Set<Seq<char>>)
    requires
        set.finite(),
    ensures
        strictly_sorted(sorted_seq(set)),
        sorted_seq(set).to_set() == set,
    decreases set.len(),
{
    if set.len() == 0 {
        let none = Seq::<Seq<char>>::empty();
        assert(strictly_sorted(none));
        assert(none.to_set() =~= set) by {
            vstd::set_lib::lemma_set_empty_equivalency_len(set);
            assert forall|v: Seq<char>| none.to_set().contains(v) <==> set.contains(v) by {
                if none.to_set().contains(v) {
                    let k = choose|k: int| 0 <= k < none.len() && none[k] == v;
                }
            }
        }
    } else {
        let x = set.choose();
        vstd::set::axiom_set_choose_len(set);
        vstd::set::axiom_set_remove_finite(set, x);
        vstd::set::axiom_set_remove_len(set, x);
        let rest = set.remove(x);
        lemma_sorted_seq(rest);
        lemma_with_member(sorted_seq(rest), x);
        let all = with_member(sorted_seq(rest), x);
        assert(all.to_set() =~= set);
        assert(strictly_sorted(all) && all.to_set() == set);
    }
}

/// A set of strings, held in ascending order.
pub struct StringSet {
    items: Vec<String>,
}

impl View for StringSet {
    type V = Seq<Seq<char>>;

    closed spec fn view(&self) -> Self::V {
        str_views(self.items@)
    }
}

impl StringSet {
    /// The strings stand in strictly ascending order.
    pub open spec fn wf(&self) -> bool {
        strictly_sorted(self@)
    }

    /// The members.
    pub open spec fn members(&self) -> Set<Seq<char>> {
        self@.to_set()
    }

    /// The empty set.
    pub fn new() -> (s: Self)
        ensures
            s.wf(),
            s@.len() == 0,
            s.members() == Set::<Seq<char>>::empty(),
    {
        let s = StringSet { items: Vec::new() };
        assert(s@.to_set() =~= Set::<Seq<char>>::empty());
        s
    }

    /// The number of members.
    pub fn len(&self) -> (n: usize)
        ensures
            n == self@.len(),
    {
        self.items.len()
    }

    /// The member at position `i` of the ascending order.
    pub fn get(&self, i: usize) -> (s: &String)
        requires
            i < self@.len(),
        ensures
            s@ == self@[i as int],
    {
        &self.items[i]
    }

    /// The members in ascending order.
    pub fn to_vec(&self) -> (v: Vec<String>)
        ensures
            str_views(v@) == self@,
    {
        let mut v: Vec<String> = Vec::new();
        let mut i: usize = 0;
        while i < self.items.len()
            invariant
                i <= self.items@.len(),
                str_views(v@) == self@.take(i as int),
            decreases self.items@.len() - i,
        {
            let item = self.items[i].clone();
            let ghost before = str_views(v@);
            v.push(item);
            assert(str_views(v@) =~= before.push(self@[i as int]));
            assert(self@.take(i + 1) =~= self@.take(i as int).push(self@[i as int]));
            i += 1;
        }
        assert(self@.take(i as int) =~= self@);
        v
    }

    /// The position at which `s` stands or would be inserted: that of the
    /// first member that does not sort before `s`.
    fn lower_bound(&self, s: &str) -> (p: usize)
        requires
            self.wf(),
        ensures
            p <= self@.len(),
            forall|i: int| 0 <= i < p ==> lex_lt(#[trigger] self@[i], s@),
            forall|i: int| p <= i < self@.len() ==> !lex_lt(#[trigger] self@[i], s@),
    {
        let mut p: usize = 0;
        while p < self.items.len() && str_lt(self.items[p].as_str(), s)
            invariant
                p <= self.items@.len(),
                forall|i: int| 0 <= i < p ==> lex_lt(#[trigger] self@[i], s@),
            decreases self.items@.len() - p,
        {
            p += 1;
        }
        proof {
            assert forall|i: int| p <= i < self@.len() implies !lex_lt(#[trigger] self@[i], s@) by {
                if i > p {
                    assert(lex_lt(self@[p as int], self@[i]));
                    if lex_lt(self@[i], s@) {
                        lemma_lex_lt_transitive(self@[p as int], self@[i], s@);
                    }
                }
            }
        }
        p
    }

    /// Whether `s` is a member.
    pub fn contains(&self, s: &str) -> (r: bool)
        requires
            self.wf(),
        ensures
            r == self.members().contains(s@),
    {
        let p = self.lower_bound(s);
        if p < self.items.len() && !str_lt(s, self.items[p].as_str()) {
            proof {
                lemma_lex_lt_total(self@[p as int], s@);
            }
            true
        } else {
            proof {
                assert forall|i: int| 0 <= i < self@.len() implies self@[i] != s@ by {
                    lemma_lex_lt_irreflexive(s@);
                    if i > p {
                        assert(lex_lt(self@[p as int], self@[i]));
                        if self@[i] == s@ {
                            lemma_lex_lt_asymmetric(self@[p as int], s@);
                        }
                    }
                }
            }
            false
        }
    }

    /// Adds `s` to the set.
    pub fn insert(&mut self, s: String)
        requires
            old(self).wf(),
        ensures
            final(self).wf(),
            final(self).members() == old(self).members().insert(s@),
    {
        let p = self.lower_bound(s.as_str());
        if p < self.items.len() && !str_lt(s.as_str(), self.items[p].as_str()) {
            proof {
                lemma_lex_lt_total(self@[p as int], s@);
                assert(self@[p as int] == s@);
                assert(self.members() =~= old(self).members().insert(s@));
            }
        } else {
            let ghost before = self@;
            self.items.insert(p, s);
            proof {
                let after = self@;
                assert(after == before.insert(p as int, s@));
                assert forall|i: int, j: int| 0 <= i < j < after.len() implies lex_lt(
                    #[trigger] after[i],
                    #[trigger] after[j],
                ) by {
                    if j == p {
                        assert(after[i] == before[i]);
                    } else if i == p {
                        assert(after[j] == before[j - 1]);
                        if j - 1 > p {
                            assert(lex_lt(before[p as int], before[j - 1]));
                            lemma_lex_lt_transitive(s@, before[p as int], before[j - 1]);
                        }
                    } else {
                        let bi = if i < p { i } else { i - 1 };
                        let bj = if j < p { j } else { j - 1 };
                        assert(after[i] == before[bi]);
                        assert(after[j] == before[bj]);
                        assert(lex_lt(before[bi], before[bj]));
                    }
                }
                assert forall|v: Seq<char>| after.to_set().contains(v) <==> before.to_set().insert(
                    s@,
                ).contains(v) by {
                    if after.to_set().contains(v) {
                        let i = choose|i: int| 0 <= i < after.len() && after[i] == v;
                        if i < p {
                            assert(before[i] == v);
                        } else if i > p {
                            assert(before[i - 1] == v);
                        }
                    }
                    if before.to_set().contains(v) {
                        let i = choose|i: int| 0 <= i < before.len() && before[i] == v;
                        if i < p {
                            assert(after[i] == v);
                        } else {
                            assert(after[i + 1] == v);
                        }
                    }
                    if v == s@ {
                        assert(after[p as int] == v);
                    }
                }
                assert(after.to_set() =~= before.to_set().insert(s@));
            }
        }
    }

    /// Takes `s` out of the set.
    pub fn remove(&mut self, s: &str)
        requires
            old(self).wf(),
        ensures
            final(self).wf(),
            final(self).members() == old(self).members().remove(s@),
    {
        let p = self.lower_bound(s);
        if p < self.items.len() && !str_lt(s, self.items[p].as_str()) {
            let ghost before = self@;
            proof {
                lemma_lex_lt_total(before[p as int], s@);
                lemma_sorted_no_duplicates(before);
            }
            self.items.remove(p);
            proof {
                let after = self@;
                assert(after == before.remove(p as int));
                assert forall|i: int, j: int| 0 <= i < j < after.len() implies lex_lt(
                    #[trigger] after[i],
                    #[trigger] after[j],
                ) by {
                    let bi = if i < p { i } else { i + 1 };
                    let bj = if j < p { j } else { j + 1 };
                    assert(after[i] == before[bi]);
                    assert(after[j] == before[bj]);
                    assert(lex_lt(before[bi], before[bj]));
                }
                assert forall|v: Seq<char>| after.to_set().contains(v) <==> before.to_set().remove(
                    s@,
                ).contains(v) by {
                    if after.to_set().contains(v) {
                        let i = choose|i: int| 0 <= i < after.len() && after[i] == v;
                        let bi = if i < p { i } else { i + 1 };
                        assert(before[bi] == v);
                    }
                    if before.to_set().contains(v) && v != s@ {
                        let i = choose|i: int| 0 <= i < before.len() && before[i] == v;
                        if i < p {
                            assert(after[i] == v);
                        } else {
                            assert(after[i - 1] == v);
                        }
                    }
                }
                assert(after.to_set() =~= before.to_set().remove(s@));
            }
        } else {
            proof {
                assert forall|i: int| 0 <= i < self@.len() implies self@[i] != s@ by {
                    lemma_lex_lt_irreflexive(s@);
                    if i > p {
                        assert(lex_lt(self@[p as int], self@[i]));
                        if self@[i] == s@ {
                            lemma_lex_lt_asymmetric(self@[p as int], s@);
                        }
                    }
                }
                assert(self.members() =~= old(self).members().remove(s@));
            }
        }
    }
}

} // verus!
