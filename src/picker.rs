//! Participants, their shared history, and the rounds that group them.

use crate::announce::{announcement_text, group_lines, push_group_line};
use crate::names::{compare_names, lemma_name_lt_asymmetric, lemma_name_lt_irreflexive, lemma_name_lt_transitive, name_lt};
use std::cmp::Ordering;
use vstd::prelude::*;

verus! {

/// The counts are keyed by name, each name at most once.
pub open spec fn keys_distinct(ws: Seq<(String, u64)>) -> bool {
    forall|i: int, j: int|
        0 <= i < ws.len() && 0 <= j < ws.len() && i != j ==> ws[i].0@ != ws[j].0@
}

/// Whether a count is stored under `n`.
pub open spec fn has_key(ws: Seq<(String, u64)>, n: Seq<char>) -> bool {
    exists|i: int| 0 <= i < ws.len() && ws[i].0@ == n
}

/// The count stored under `n`, or 0 where there is none.
pub open spec fn count_in(ws: Seq<(String, u64)>, n: Seq<char>) -> nat {
    if has_key(ws, n) {
        ws[choose|i: int| 0 <= i < ws.len() && ws[i].0@ == n].1 as nat
    } else {
        0
    }
}

/// The count read under a stored name is the one stored with it.
pub proof fn lemma_count_at(ws: Seq<(String, u64)>, k: int)
    requires
        keys_distinct(ws),
        0 <= k < ws.len(),
    ensures
        count_in(ws, ws[k].0@) == ws[k].1,
{
    assert(has_key(ws, ws[k].0@));
}

/// Whether some person in `people` is called `n`.
pub open spec fn lists(people: Seq<Person>, n: Seq<char>) -> bool {
    exists|i: int| 0 <= i < people.len() && people[i].id() == n
}

/// A participant, known by name. Equality and order go by the name alone.
#[derive(Clone, Debug)]
pub struct Person {
    pub name: String,
    weightings: Vec<(String, u64)>,
}

impl Person {
    /// The person's name.
    pub closed spec fn id(self) -> Seq<char> {
        self.name@
    }

    /// Each name has at most one count.
    pub closed spec fn wf(self) -> bool {
        keys_distinct(self.weightings@)
    }

    /// How many rounds this person has shared with the person called `n`.
    pub closed spec fn weight_of(self, n: Seq<char>) -> nat {
        count_in(self.weightings@, n)
    }

    /// The person's name.
    pub fn get_name(&self) -> (r: &String)
        ensures
            r@ == self.id(),
    {
        &self.name
    }

    /// A person who has not been grouped with anyone yet.
    pub fn new(name: String) -> (r: Person)
        ensures
            r.wf(),
            r.id() == name@,
            forall|n: Seq<char>| r.weight_of(n) == 0,
    {
        Person { name, weightings: Vec::new() }
    }

    /// How many rounds this person has shared with `person`; 0 if never.
    pub fn get_weighting(&self, person: &Person) -> (r: u64)
        requires
            self.wf(),
        ensures
            r == self.weight_of(person.id()),
    {
        let mut i: usize = 0;
        while i < self.weightings.len()
            invariant
                self.wf(),
                i <= self.weightings@.len(),
                forall|j: int| 0 <= j < i ==> self.weightings@[j].0@ != person.name@,
            decreases self.weightings@.len() - i,
        {
            if self.weightings[i].0 == person.name {
                proof {
                    lemma_count_at(self.weightings@, i as int);
                }
                return self.weightings[i].1;
            }
            i = i + 1;
        }
        0
    }

    /// Counts one more shared round with each person in `people`, once per
    /// name however often it is listed.
    pub fn update_weighting(&mut self, people: Vec<Person>)
        requires
            old(self).wf(),
            forall|n: Seq<char>| lists(people@, n) ==> old(self).weight_of(n) < u64::MAX,
        ensures
            final(self).wf(),
            final(self).id() == old(self).id(),
            forall|n: Seq<char>|
                #![trigger final(self).weight_of(n)]
                final(self).weight_of(n) == old(self).weight_of(n) + (if lists(people@, n) {
                    1nat
                } else {
                    0nat
                }),
    {
        let ghost ws0 = self.weightings@;
        let mut ws: Vec<(String, u64)> = Vec::new();
        let mut i: usize = 0;
        while i < self.weightings.len()
            invariant
                ws0 == self.weightings@,
                keys_distinct(ws0),
                forall|n: Seq<char>| lists(people@, n) ==> count_in(ws0, n) < u64::MAX,
                i <= ws0.len(),
                ws@.len() == i,
                forall|k: int|
                    0 <= k < i ==> ws@[k].0@ == ws0[k].0@ && ws@[k].1 == ws0[k].1 + (if lists(
                        people@,
                        ws0[k].0@,
                    ) {
                        1int
                    } else {
                        0int
                    }),
            decreases ws0.len() - i,
        {
            let key = self.weightings[i].0.clone();
            let listed = lists_name(&people, &key);
            let count = self.weightings[i].1;
            proof {
                lemma_count_at(ws0, i as int);
            }
            let count = if listed {
                count + 1
            } else {
                count
            };
            ws.push((key, count));
            i = i + 1;
        }
        let mut j: usize = 0;
        while j < people.len()
            invariant
                ws0 == self.weightings@,
                keys_distinct(ws0),
                keys_distinct(ws@),
                ws0.len() <= ws@.len(),
                j <= people@.len(),
                forall|k: int|
                    0 <= k < ws0.len() ==> ws@[k].0@ == ws0[k].0@ && ws@[k].1 == ws0[k].1 + (
                    if lists(people@, ws0[k].0@) {
                        1int
                    } else {
                        0int
                    }),
                forall|k: int|
                    ws0.len() <= k < ws@.len() ==> lists(people@, ws@[k].0@) && !has_key(
                        ws0,
                        ws@[k].0@,
                    ) && ws@[k].1 == 1,
                forall|t: int| 0 <= t < j ==> has_key(ws@, #[trigger] people@[t].name@),
            decreases people@.len() - j,
        {
            let ghost prev = ws@;
            if !has_name(&ws, &people[j].name) {
                proof {
                    assert(lists(people@, people@[j as int].name@));
                    if has_key(ws0, people@[j as int].name@) {
                        let k = choose|k: int| 0 <= k < ws0.len() && ws0[k].0@ == people@[j as int].name@;
                        assert(ws@[k].0@ == ws0[k].0@);
                    }
                }
                ws.push((people[j].name.clone(), 1));
                proof {
                    assert(ws@.last().0@ == people@[j as int].name@);
                    assert(has_key(ws@, people@[j as int].name@));
                }
            }
            proof {
                assert forall|t: int| 0 <= t < j + 1 implies has_key(
                    ws@,
                    #[trigger] people@[t].name@,
                ) by {
                    if t < j {
                        let k = choose|k: int|
                            0 <= k < prev.len() && prev[k].0@ == people@[t].name@;
                        assert(ws@[k] == prev[k]);
                    }
                }
            }
            j = j + 1;
        }
        proof {
            assert forall|n: Seq<char>|
                #![trigger count_in(ws@, n)]
                count_in(ws@, n) == count_in(ws0, n) + (if lists(people@, n) {
                    1nat
                } else {
                    0nat
                }) by {
                if has_key(ws0, n) {
                    let k = choose|k: int| 0 <= k < ws0.len() && ws0[k].0@ == n;
                    lemma_count_at(ws0, k);
                    lemma_count_at(ws@, k);
                } else if lists(people@, n) {
                    let t = choose|t: int| 0 <= t < people@.len() && people@[t].name@ == n;
                    assert(has_key(ws@, people@[t].name@));
                    let k = choose|k: int| 0 <= k < ws@.len() && ws@[k].0@ == n;
                    lemma_count_at(ws@, k);
                } else {
                    assert(!has_key(ws@, n));
                }
            }
        }
        self.weightings = ws;
    }
}

/// Whether some person in `people` is called `n`.
fn lists_name(people: &Vec<Person>, n: &String) -> (r: bool)
    ensures
        r == lists(people@, n@),
{
    let mut i: usize = 0;
    while i < people.len()
        invariant
            i <= people@.len(),
            forall|j: int| 0 <= j < i ==> people@[j].name@ != n@,
        decreases people@.len() - i,
    {
        if people[i].name == *n {
            return true;
        }
        i = i + 1;
    }
    false
}

/// Whether a count is kept under `n`.
fn has_name(ws: &Vec<(String, u64)>, n: &String) -> (r: bool)
    ensures
        r == has_key(ws@, n@),
{
    let mut i: usize = 0;
    while i < ws.len()
        invariant
            i <= ws@.len(),
            forall|j: int| 0 <= j < i ==> ws@[j].0@ != n@,
        decreases ws@.len() - i,
    {
        if ws[i].0 == *n {
            return true;
        }
        i = i + 1;
    }
    false
}

/// Whether `n` stands in one of the first `k` groups.
pub open spec fn placed_before(groups: Seq<Seq<Seq<char>>>, k: int, n: Seq<char>) -> bool {
    exists|j: int| 0 <= j < k && #[trigger] groups[j].contains(n)
}

/// Whether `n` stands in some group.
pub open spec fn placed(groups: Seq<Seq<Seq<char>>>, n: Seq<char>) -> bool {
    placed_before(groups, groups.len() as int, n)
}

/// In how many of the groups `a` and `b` stand together.
pub open spec fn together(groups: Seq<Seq<Seq<char>>>, a: Seq<char>, b: Seq<char>) -> nat
    decreases groups.len(),
{
    if groups.len() == 0 {
        0
    } else {
        together(groups.drop_last(), a, b) + (if groups.last().contains(a) && groups.last().contains(
            b,
        ) {
            1nat
        } else {
            0nat
        })
    }
}

/// Standing together is symmetric.
pub proof fn lemma_together_symmetric(groups: Seq<Seq<Seq<char>>>, a: Seq<char>, b: Seq<char>)
    ensures
        together(groups, a, b) == together(groups, b, a),
    decreases groups.len(),
{
    if groups.len() > 0 {
        lemma_together_symmetric(groups.drop_last(), a, b);
    }
}

/// Nobody stands together with someone who stands in no group.
pub proof fn lemma_together_unplaced(groups: Seq<Seq<Seq<char>>>, a: Seq<char>, b: Seq<char>)
    requires
        !placed(groups, a) || !placed(groups, b),
    ensures
        together(groups, a, b) == 0,
    decreases groups.len(),
{
    if groups.len() > 0 {
        let g = groups.drop_last();
        assert forall|n: Seq<char>| placed(g, n) implies placed(groups, n) by {
            let j = choose|j: int| 0 <= j < g.len() && #[trigger] g[j].contains(n);
            assert(groups[j] == g[j]);
        }
        if groups.last().contains(a) {
            assert(groups[groups.len() - 1].contains(a));
        }
        if groups.last().contains(b) {
            assert(groups[groups.len() - 1].contains(b));
        }
        lemma_together_unplaced(g, a, b);
    }
}

/// One more group adds to the count only where it holds both.
pub proof fn lemma_together_push(
    groups: Seq<Seq<Seq<char>>>,
    g: Seq<Seq<char>>,
    a: Seq<char>,
    b: Seq<char>,
)
    ensures
        together(groups.push(g), a, b) == together(groups, a, b) + (if g.contains(a) && g.contains(
            b,
        ) {
            1nat
        } else {
            0nat
        }),
{
    assert(groups.push(g).drop_last() =~= groups);
}

/// A shorter run of groups never counts more.
pub proof fn lemma_together_prefix(groups: Seq<Seq<Seq<char>>>, k: int, a: Seq<char>, b: Seq<char>)
    requires
        0 <= k <= groups.len(),
    ensures
        together(groups.subrange(0, k), a, b) <= together(groups, a, b),
    decreases groups.len() - k,
{
    if k < groups.len() {
        lemma_together_prefix(groups, k + 1, a, b);
        assert(groups.subrange(0, k + 1).drop_last() =~= groups.subrange(0, k));
    } else {
        assert(groups.subrange(0, k) =~= groups);
    }
}

/// A group of two or of three participants, in the order they were chosen.
#[derive(Debug)]
pub enum Pick {
    Pair(Person, Person),
    Triple(Person, Person, Person),
}

impl Pick {
    /// The names in the group, in order.
    pub open spec fn members(self) -> Seq<Seq<char>> {
        match self {
            Pick::Pair(a, b) => seq![a.id(), b.id()],
            Pick::Triple(a, b, c) => seq![a.id(), b.id(), c.id()],
        }
    }

    /// Whether `person` is in this group.
    pub fn contains(&self, person: &Person) -> (r: bool)
        ensures
            r == self.members().contains(person.id()),
    {
        let r = match self {
            Pick::Pair(a, b) => a.name == person.name || b.name == person.name,
            Pick::Triple(a, b, c) => a.name == person.name || b.name == person.name || c.name
                == person.name,
        };
        proof {
            if r {
                let m = self.members();
                if m[0] == person.id() {
                    assert(m.contains(m[0]));
                } else if m[1] == person.id() {
                    assert(m.contains(m[1]));
                } else {
                    assert(m.contains(m[2]));
                }
            }
        }
        r
    }

    fn member_names(&self) -> (r: Vec<String>)
        ensures
            r@.len() == self.members().len(),
            forall|i: int| 0 <= i < r@.len() ==> #[trigger] r@[i]@ == self.members()[i],
    {
        match self {
            Pick::Pair(a, b) => vec![a.name.clone(), b.name.clone()],
            Pick::Triple(a, b, c) => vec![a.name.clone(), b.name.clone(), c.name.clone()],
        }
    }
}

/// The message that announces a round: a heading, then one numbered line
/// per group naming its members.
pub fn announcement(picks: &Vec<Pick>) -> (r: String)
    requires
        picks@.len() < u64::MAX,
    ensures
        r@ == announcement_text(groups_of(picks@)),
{
    let ghost groups = groups_of(picks@);
    proof {
        reveal_strlit("bru time!\n\n");
    }
    let mut out = String::from_str("bru time!\n\n");
    let mut k: usize = 0;
    proof {
        assert(groups.subrange(0, 0) =~= Seq::<Seq<Seq<char>>>::empty());
        assert(out@ =~= "bru time!\n\n"@ + group_lines(groups.subrange(0, 0), 1));
    }
    while k < picks.len()
        invariant
            groups == groups_of(picks@),
            picks@.len() < u64::MAX,
            k <= picks@.len(),
            out@ == "bru time!\n\n"@ + group_lines(groups.subrange(0, k as int), 1),
        decreases picks@.len() - k,
    {
        let names = picks[k].member_names();
        proof {
            assert(names@.map_values(|s: String| s@) =~= groups[k as int]);
        }
        push_group_line(&mut out, (k + 1) as u64, &names);
        proof {
            let sub = groups.subrange(0, k + 1);
            assert(sub.drop_last() =~= groups.subrange(0, k as int));
            assert(sub.last() == groups[k as int]);
            assert(out@ =~= "bru time!\n\n"@ + group_lines(sub, 1));
        }
        k = k + 1;
    }
    proof {
        assert(groups.subrange(0, k as int) =~= groups);
    }
    out
}

/// The names of each group, in order.
pub open spec fn groups_of(picks: Seq<Pick>) -> Seq<Seq<Seq<char>>> {
    picks.map_values(|p: Pick| p.members())
}

/// The name held, if any.
pub open spec fn name_opt(o: Option<String>) -> Option<Seq<char>> {
    match o {
        Some(d) => Some(d@),
        None => None,
    }
}

/// The name of the person held, if any.
pub open spec fn person_name(o: Option<Person>) -> Option<Seq<char>> {
    match o {
        Some(p) => Some(p.id()),
        None => None,
    }
}

/// The names held in `v`.
spec fn strs(v: Seq<String>) -> Seq<Seq<char>> {
    v.map_values(|s: String| s@)
}

/// One person for each name in `members` but the one at `skip`.
fn others_than(members: &Vec<String>, skip: usize) -> (r: Vec<Person>)
    ensures
        forall|n: Seq<char>|
            #![trigger lists(r@, n)]
            lists(r@, n) <==> exists|u: int|
                0 <= u < members@.len() && u != skip && #[trigger] members@[u]@ == n,
{
    let mut r: Vec<Person> = Vec::new();
    let mut t: usize = 0;
    while t < members.len()
        invariant
            t <= members@.len(),
            forall|n: Seq<char>|
                #![trigger lists(r@, n)]
                lists(r@, n) <==> exists|u: int|
                    0 <= u < t && u != skip && #[trigger] members@[u]@ == n,
        decreases members@.len() - t,
    {
        if t != skip {
            let ghost prev = r@;
            r.push(Person::new(members[t].clone()));
            proof {
                assert forall|n: Seq<char>|
                    #![trigger lists(r@, n)]
                    lists(r@, n) <==> exists|u: int|
                        0 <= u < t + 1 && u != skip && #[trigger] members@[u]@ == n by {
                    if lists(r@, n) {
                        let i = choose|i: int| 0 <= i < r@.len() && r@[i].name@ == n;
                        if i < prev.len() {
                            assert(prev[i] == r@[i]);
                            assert(lists(prev, n));
                        } else {
                            assert(members@[t as int]@ == n);
                        }
                    }
                    if exists|u: int| 0 <= u < t + 1 && u != skip && #[trigger] members@[u]@ == n {
                        let u = choose|u: int| 0 <= u < t + 1 && u != skip && #[trigger] members@[u]@ == n;
                        if u < t {
                            assert(lists(prev, n));
                            let i = choose|i: int| 0 <= i < prev.len() && prev[i].name@ == n;
                            assert(r@[i] == prev[i]);
                        } else {
                            assert(r@[prev.len() as int].name@ == n);
                        }
                    }
                }
            }
        }
        t = t + 1;
    }
    r
}

/// Indices in strictly increasing order.
pub open spec fn ascending(v: Seq<usize>) -> bool {
    forall|a: int, b: int| 0 <= a < b < v.len() ==> v[a] < v[b]
}

/// `rem` without the entries at positions `p` and `q`.
fn without_two(rem: &Vec<usize>, p: usize, q: usize) -> (r: Vec<usize>)
    requires
        ascending(rem@),
        p < rem@.len(),
        q < rem@.len(),
        p != q,
    ensures
        ascending(r@),
        r@.len() == rem@.len() - 2,
        forall|x: usize| r@.contains(x) <==> (rem@.contains(x) && x != rem@[p as int] && x != rem@[q as int]),
{
    let mut r: Vec<usize> = Vec::new();
    let mut t: usize = 0;
    while t < rem.len()
        invariant
            ascending(rem@),
            p < rem@.len(),
            q < rem@.len(),
            p != q,
            t <= rem@.len(),
            ascending(r@),
            r@.len() == t - (if p < t { 1int } else { 0int }) - (if q < t { 1int } else { 0int }),
            r@.len() > 0 && t < rem@.len() ==> r@.last() < rem@[t as int],
            forall|x: usize|
                r@.contains(x) <==> (exists|b: int| 0 <= b < t && b != p && b != q && rem@[b] == x),
        decreases rem@.len() - t,
    {
        if t != p && t != q {
            let ghost prev = r@;
            r.push(rem[t]);
            proof {
                assert forall|a: int, b: int| 0 <= a < b < r@.len() implies r@[a] < r@[b] by {
                    if b == r@.len() - 1 && a < prev.len() {
                        assert(r@[a] == prev[a]);
                        if a < prev.len() - 1 {
                            assert(prev[a] < prev[prev.len() - 1]);
                        }
                    }
                }
                assert forall|x: usize|
                    r@.contains(x) <==> (exists|b: int|
                        0 <= b < t + 1 && b != p && b != q && rem@[b] == x) by {
                    if r@.contains(x) {
                        let a = choose|a: int| 0 <= a < r@.len() && r@[a] == x;
                        if a < prev.len() {
                            assert(prev[a] == x);
                            assert(prev.contains(x));
                        } else {
                            assert(rem@[t as int] == x);
                        }
                    }
                    if exists|b: int| 0 <= b < t + 1 && b != p && b != q && rem@[b] == x {
                        let b = choose|b: int| 0 <= b < t + 1 && b != p && b != q && rem@[b] == x;
                        if b < t {
                            assert(prev.contains(x));
                            let a = choose|a: int| 0 <= a < prev.len() && prev[a] == x;
                            assert(r@[a] == x);
                        } else {
                            assert(r@[prev.len() as int] == x);
                        }
                    }
                }
            }
        }
        t = t + 1;
    }
    proof {
        assert forall|x: usize|
            r@.contains(x) <==> (rem@.contains(x) && x != rem@[p as int] && x != rem@[q as int]) by {
            if rem@.contains(x) && x != rem@[p as int] && x != rem@[q as int] {
                let b = choose|b: int| 0 <= b < rem@.len() && rem@[b] == x;
                assert(b != p && b != q);
            }
            if r@.contains(x) {
                let b = choose|b: int| 0 <= b < t && b != p && b != q && rem@[b] == x;
                assert(rem@.contains(x));
                if x == rem@[p as int] {
                    assert(b == p);
                }
                if x == rem@[q as int] {
                    assert(b == q);
                }
            }
        }
    }
    r
}

/// The participant who opens a round: the one after the last round's opener
/// in name order, or the first one where there was none, it was the last, or
/// it has left.
pub open spec fn anchor_index(names: Seq<Seq<char>>, last: Option<Seq<char>>) -> int {
    match last {
        None => 0,
        Some(d) => if exists|i: int| 0 <= i < names.len() - 1 && names[i] == d {
            (choose|i: int| 0 <= i < names.len() - 1 && names[i] == d) + 1
        } else {
            0
        },
    }
}

/// The opener of the last round after `t` more rounds on the roster `names`,
/// starting from `last`.
pub open spec fn dealer_after(names: Seq<Seq<char>>, last: Option<Seq<char>>, t: nat) -> Option<
    Seq<char>,
>
    decreases t,
{
    if t == 0 {
        last
    } else {
        Some(names[anchor_index(names, dealer_after(names, last, (t - 1) as nat))])
    }
}

/// How many rounds after the first it takes to reach position `i`, going
/// round a roster of `n` from position `s`.
pub open spec fn turn_of(s: int, i: int, n: int) -> nat {
    if i >= s {
        (i - s) as nat
    } else {
        (i - s + n) as nat
    }
}

/// Over as many rounds as there are names, on an unchanging roster, the
/// openers run through the roster in order from the first round's opener,
/// wrapping round to the start, so that each opens exactly once.
pub open spec fn rotation_covers(names: Seq<Seq<char>>, last: Option<Seq<char>>) -> bool {
    let s = anchor_index(names, last);
    let n = names.len() as int;
    &&& 0 <= s < n
    &&& forall|t: nat|
        t < n ==> #[trigger] anchor_index(names, dealer_after(names, last, t)) == if s + t < n {
            s + t
        } else {
            s + t - n
        }
    &&& forall|i: int|
        0 <= i < n ==> #[trigger] anchor_index(
            names,
            dealer_after(names, last, turn_of(s, i, n)),
        ) == i
    &&& forall|t1: nat, t2: nat|
        t1 < n && t2 < n && #[trigger] anchor_index(names, dealer_after(names, last, t1))
            == #[trigger] anchor_index(names, dealer_after(names, last, t2)) ==> t1 == t2
}

/// The openers of successive rounds on a roster in name order go round it
/// in order.
pub proof fn lemma_rotation_covers(names: Seq<Seq<char>>, last: Option<Seq<char>>)
    requires
        names.len() > 0,
        forall|i: int, j: int| 0 <= i < j < names.len() ==> name_lt(#[trigger] names[i], #[trigger] names[j]),
    ensures
        rotation_covers(names, last),
{
    let s = anchor_index(names, last);
    let n = names.len() as int;
    assert(0 <= s < n) by {
        if let Some(d) = last {
            if exists|i: int| 0 <= i < names.len() - 1 && names[i] == d {
                let i = choose|i: int| 0 <= i < names.len() - 1 && names[i] == d;
            }
        }
    }
    assert forall|t: nat| t < n implies #[trigger] anchor_index(names, dealer_after(names, last, t)) == if s
        + t < n {
        s + t
    } else {
        s + t - n
    } by {
        lemma_rotation_step(names, last, t);
    }
    assert forall|i: int| 0 <= i < n implies #[trigger] anchor_index(
        names,
        dealer_after(names, last, turn_of(s, i, n)),
    ) == i by {
        lemma_rotation_step(names, last, turn_of(s, i, n));
    }
    assert forall|t1: nat, t2: nat|
        t1 < n && t2 < n && #[trigger] anchor_index(names, dealer_after(names, last, t1))
            == #[trigger] anchor_index(names, dealer_after(names, last, t2)) implies t1 == t2 by {
        lemma_rotation_step(names, last, t1);
        lemma_rotation_step(names, last, t2);
    }
}

proof fn lemma_rotation_step(names: Seq<Seq<char>>, last: Option<Seq<char>>, t: nat)
    requires
        names.len() > 0,
        forall|i: int, j: int| 0 <= i < j < names.len() ==> name_lt(#[trigger] names[i], #[trigger] names[j]),
        t < names.len(),
    ensures
        ({
            let s = anchor_index(names, last);
            let n = names.len() as int;
            anchor_index(names, dealer_after(names, last, t)) == if s + t < n {
                s + t
            } else {
                s + t - n
            }
        }),
    decreases t,
{
    let s = anchor_index(names, last);
    let n = names.len() as int;
    if let Some(d) = last {
        if exists|i: int| 0 <= i < names.len() - 1 && names[i] == d {
            let i = choose|i: int| 0 <= i < names.len() - 1 && names[i] == d;
        }
    }
    if t > 0 {
        lemma_rotation_step(names, last, (t - 1) as nat);
        let i = anchor_index(names, dealer_after(names, last, (t - 1) as nat));
        assert(dealer_after(names, last, t) == Some(names[i]));
        assert forall|j: int| 0 <= j < names.len() && names[j] == names[i] implies j == i by {
            lemma_name_lt_irreflexive(names[i]);
            if j < i {
                assert(name_lt(names[j], names[i]));
            } else if i < j {
                assert(name_lt(names[i], names[j]));
            }
        }
        if i < n - 1 {
            lemma_anchor_found(names, names[i], i);
        } else {
            assert(!exists|j: int| 0 <= j < names.len() - 1 && names[j] == names[i]);
        }
    }
}

proof fn lemma_anchor_found(names: Seq<Seq<char>>, d: Seq<char>, i: int)
    requires
        0 <= i < names.len() - 1,
        names[i] == d,
        forall|j: int| 0 <= j < names.len() && names[j] == d ==> j == i,
    ensures
        anchor_index(names, Some(d)) == i + 1,
{
}

/// A trio lists its names in order.
pub open spec fn trio_rule(groups: Seq<Seq<Seq<char>>>, k: int) -> bool {
    &&& groups[k].len() == 3
    &&& name_lt(groups[k][0], groups[k][1])
    &&& name_lt(groups[k][1], groups[k][2])
}

/// Placing one more group leaves who was placed before each earlier group as
/// it was.
proof fn lemma_push_placed(groups: Seq<Seq<Seq<char>>>, x: Seq<Seq<char>>)
    ensures
        forall|k: int, m: Seq<char>|
            0 <= k <= groups.len() ==> #[trigger] placed_before(groups.push(x), k, m)
                == placed_before(groups, k, m),
        forall|m: Seq<char>| #[trigger] placed(groups.push(x), m) == (placed(groups, m) || x.contains(m)),
{
    let g2 = groups.push(x);
    assert forall|k: int, m: Seq<char>|
        0 <= k <= groups.len() implies #[trigger] placed_before(g2, k, m) == placed_before(groups, k, m) by {
        if placed_before(g2, k, m) {
            let j = choose|j: int| 0 <= j < k && #[trigger] g2[j].contains(m);
            assert(groups[j] == g2[j]);
        }
        if placed_before(groups, k, m) {
            let j = choose|j: int| 0 <= j < k && #[trigger] groups[j].contains(m);
            assert(groups[j] == g2[j]);
        }
    }
    assert forall|m: Seq<char>| #[trigger] placed(g2, m) == (placed(groups, m) || x.contains(m)) by {
        assert(placed_before(g2, groups.len() as int, m) == placed_before(groups, groups.len() as int, m));
        if x.contains(m) {
            assert(g2[groups.len() as int] == x);
        }
        if placed(g2, m) && !x.contains(m) {
            let j = choose|j: int| 0 <= j < g2.len() && #[trigger] g2[j].contains(m);
            assert(j < groups.len());
            assert(groups[j] == g2[j]);
        }
    }
}

/// Where nobody is placed twice, two people stand together at most once.
proof fn lemma_together_at_most_once(groups: Seq<Seq<Seq<char>>>, a: Seq<char>, b: Seq<char>)
    requires
        forall|k: int, x: int|
            0 <= k < groups.len() && 0 <= x < groups[k].len() ==> !placed_before(
                groups,
                k,
                #[trigger] groups[k][x],
            ),
    ensures
        together(groups, a, b) <= 1,
    decreases groups.len(),
{
    if groups.len() > 0 {
        let g = groups.drop_last();
        let k = g.len() as int;
        assert(g.push(groups.last()) =~= groups);
        lemma_push_placed(g, groups.last());
        assert forall|kk: int, x: int| 0 <= kk < g.len() && 0 <= x < g[kk].len() implies !placed_before(
            g,
            kk,
            #[trigger] g[kk][x],
        ) by {
            assert(g[kk] == groups[kk]);
        }
        lemma_together_at_most_once(g, a, b);
        if groups.last().contains(a) && groups.last().contains(b) {
            let x = choose|x: int| 0 <= x < groups.last().len() && groups.last()[x] == a;
            assert(groups[k][x] == a);
            assert(!placed_before(groups, k, a));
            lemma_together_unplaced(g, a, b);
        }
    }
}

/// Two ordered trios of the same three names are equal.
proof fn lemma_trio_unique(x: Seq<Seq<char>>, y: Seq<Seq<char>>)
    requires
        x.len() == 3,
        y.len() == 3,
        name_lt(x[0], x[1]),
        name_lt(x[1], x[2]),
        name_lt(y[0], y[1]),
        name_lt(y[1], y[2]),
        forall|i: int| 0 <= i < 3 ==> x.contains(#[trigger] y[i]),
        forall|i: int| 0 <= i < 3 ==> y.contains(#[trigger] x[i]),
    ensures
        x == y,
{
    lemma_name_lt_transitive(x[0], x[1], x[2]);
    lemma_name_lt_transitive(y[0], y[1], y[2]);
    lemma_name_lt_irreflexive(x[0]);
    lemma_name_lt_irreflexive(x[1]);
    lemma_name_lt_irreflexive(x[2]);
    lemma_name_lt_asymmetric(x[0], x[1]);
    lemma_name_lt_asymmetric(x[1], x[2]);
    lemma_name_lt_asymmetric(x[0], x[2]);
    assert(x.contains(y[0]));
    assert(x.contains(y[1]));
    assert(x.contains(y[2]));
    assert(y.contains(x[0]));
    assert(y.contains(x[1]));
    assert(y.contains(x[2]));
    assert(x =~= y);
}

/// Why no round can be formed.
#[derive(Debug, PartialEq, Eq, Structural)]
pub enum SelectionError {
    /// The roster holds fewer than two people.
    InsufficientParticipants,
}

/// The roster, in name order, with each participant's history, and the name
/// of the participant who opened the last round.
#[derive(Clone, Debug)]
pub struct PersonSet {
    previous_dealer: Option<String>,
    people: Vec<Person>,
}

impl PersonSet {
    /// The names on the roster, in order.
    pub closed spec fn names(self) -> Seq<Seq<char>> {
        self.people@.map_values(|p: Person| p.id())
    }

    /// Who opened the last round, if any round ran.
    pub closed spec fn dealer(self) -> Option<Seq<char>> {
        name_opt(self.previous_dealer)
    }

    /// How many rounds `a` and `b` have shared; 0 for anyone off the roster.
    pub closed spec fn pair_count(self, a: Seq<char>, b: Seq<char>) -> nat {
        if self.names().contains(a) {
            self.people@[choose|i: int|
                0 <= i < self.people@.len() && self.names()[i] == a].weight_of(b)
        } else {
            0
        }
    }

    /// The roster is in strict name order.
    pub closed spec fn sorted(self) -> bool {
        forall|i: int, j: int|
            0 <= i < j < self.people@.len() ==> name_lt(
                #[trigger] self.people@[i].name@,
                #[trigger] self.people@[j].name@,
            )
    }

    /// Names are kept in strict order; the history is kept on both sides of
    /// each pair, only between people on the roster, never with oneself.
    pub closed spec fn wf(self) -> bool {
        &&& forall|i: int| 0 <= i < self.people@.len() ==> (#[trigger] self.people@[i]).wf()
        &&& self.sorted()
        &&& forall|i: int, n: Seq<char>|
            0 <= i < self.people@.len() && #[trigger] self.people@[i].weight_of(n) > 0
                ==> self.names().contains(n)
        &&& forall|i: int|
            0 <= i < self.people@.len() ==> #[trigger] self.people@[i].weight_of(
                self.people@[i].name@,
            ) == 0
        &&& forall|i: int, j: int|
            0 <= i < self.people@.len() && 0 <= j < self.people@.len() ==> (#[trigger] self.people@[i]).weight_of(
                self.people@[j].name@,
            ) == (#[trigger] self.people@[j]).weight_of(self.people@[i].name@)
    }

    proof fn lemma_index_unique(self, i: int, j: int)
        requires
            self.wf(),
            0 <= i < self.people@.len(),
            0 <= j < self.people@.len(),
            self.people@[i].name@ == self.people@[j].name@,
        ensures
            i == j,
    {
        self.lemma_index_unique_sorted(i, j);
    }

    proof fn lemma_index_unique_sorted(self, i: int, j: int)
        requires
            self.sorted(),
            0 <= i < self.people@.len(),
            0 <= j < self.people@.len(),
            self.people@[i].name@ == self.people@[j].name@,
        ensures
            i == j,
    {
        lemma_name_lt_irreflexive(self.people@[i].name@);
        if i < j {
            assert(name_lt(self.people@[i].name@, self.people@[j].name@));
        } else if j < i {
            assert(name_lt(self.people@[j].name@, self.people@[i].name@));
        }
    }

    proof fn lemma_pair_count_at(self, i: int, b: Seq<char>)
        requires
            self.wf(),
            0 <= i < self.people@.len(),
        ensures
            self.pair_count(self.people@[i].name@, b) == self.people@[i].weight_of(b),
    {
        assert(self.names()[i] == self.people@[i].name@);
        assert(self.names().contains(self.people@[i].name@));
        let j = choose|j: int| 0 <= j < self.people@.len() && self.names()[j] == self.people@[i].name@;
        self.lemma_index_unique(i, j);
    }

    /// The roster's names are in strict name order, so none repeats.
    pub proof fn lemma_names_sorted(self)
        requires
            self.wf(),
        ensures
            forall|i: int, j: int|
                0 <= i < j < self.names().len() ==> name_lt(
                    #[trigger] self.names()[i],
                    #[trigger] self.names()[j],
                ),
            self.names().no_duplicates(),
    {
        assert forall|i: int, j: int| 0 <= i < j < self.names().len() implies name_lt(
            #[trigger] self.names()[i],
            #[trigger] self.names()[j],
        ) by {
            assert(name_lt(self.people@[i].name@, self.people@[j].name@));
        }
        assert forall|i: int, j: int|
            0 <= i < self.names().len() && 0 <= j < self.names().len() && i != j implies self.names()[i]
            != self.names()[j] by {
            lemma_name_lt_irreflexive(self.names()[i]);
            if i < j {
                assert(name_lt(self.people@[i].name@, self.people@[j].name@));
            } else {
                assert(name_lt(self.people@[j].name@, self.people@[i].name@));
            }
        }
    }

    /// Someone off the roster has no history.
    pub proof fn lemma_off_roster(self, a: Seq<char>, b: Seq<char>)
        requires
            self.wf(),
            !self.names().contains(a) || !self.names().contains(b),
        ensures
            self.pair_count(a, b) == 0,
            self.pair_count(b, a) == 0,
    {
        self.lemma_history_symmetric(a, b);
        if self.names().contains(a) {
            let i = choose|i: int| 0 <= i < self.people@.len() && self.names()[i] == a;
            self.lemma_pair_count_at(i, b);
        }
    }

    /// The shared history reads the same from either side.
    pub proof fn lemma_history_symmetric(self, a: Seq<char>, b: Seq<char>)
        requires
            self.wf(),
        ensures
            self.pair_count(a, b) == self.pair_count(b, a),
    {
        if self.names().contains(a) {
            let i = choose|i: int| 0 <= i < self.people@.len() && self.names()[i] == a;
            self.lemma_pair_count_at(i, b);
            if self.names().contains(b) {
                let j = choose|j: int| 0 <= j < self.people@.len() && self.names()[j] == b;
                self.lemma_pair_count_at(j, a);
            }
        } else if self.names().contains(b) {
            let j = choose|j: int| 0 <= j < self.people@.len() && self.names()[j] == b;
            self.lemma_pair_count_at(j, a);
        }
    }

    /// An empty roster; no round has run.
    pub fn new() -> (r: PersonSet)
        ensures
            r.wf(),
            r.names() == Seq::<Seq<char>>::empty(),
            r.dealer() == None::<Seq<char>>,
            forall|a: Seq<char>, b: Seq<char>| #[trigger] r.pair_count(a, b) == 0,
    {
        let r = PersonSet { previous_dealer: None, people: Vec::new() };
        assert(r.names() =~= Seq::<Seq<char>>::empty());
        r
    }

    /// The index of the participant who opens the next round.
    fn anchor_of(&self, last: &Option<String>) -> (r: usize)
        requires
            self.wf(),
            self.people@.len() > 0,
        ensures
            r < self.people@.len(),
            r == anchor_index(self.names(), name_opt(*last)),
    {
        match last {
            None => 0,
            Some(d) => {
                let n = self.people.len();
                let mut i: usize = 0;
                while i < n
                    invariant
                        name_opt(*last) == Some(d@),
                        self.wf(),
                        n == self.people@.len(),
                        i <= n,
                        forall|t: int| 0 <= t < i ==> self.names()[t] != d@,
                    decreases n - i,
                {
                    if self.people[i].name == *d {
                        proof {
                            assert(self.names().len() == n);
                            assert(self.names()[i as int] == d@);
                            if i + 1 < n {
                                assert(0 <= i < self.names().len() - 1 && self.names()[i as int] == d@);
                            }
                            if exists|t: int| 0 <= t < self.names().len() - 1 && self.names()[t] == d@ {
                                let t = choose|t: int|
                                    0 <= t < self.names().len() - 1 && self.names()[t] == d@;
                                assert(self.people@[t].name@ == self.names()[t]);
                                assert(self.people@[i as int].name@ == self.names()[i as int]);
                                self.lemma_index_unique(t, i as int);
                                assert forall|j: int|
                                    0 <= j < self.names().len() && self.names()[j] == d@ implies j
                                    == t by {
                                    assert(self.people@[j].name@ == self.names()[j]);
                                    self.lemma_index_unique(j, t);
                                }
                                lemma_anchor_found(self.names(), d@, t);
                            }
                        }
                        if i + 1 < n {
                            return i + 1;
                        } else {
                            return 0;
                        }
                    }
                    i = i + 1;
                }
                proof {
                    assert(name_opt(*last) == Some(d@));
                    assert(self.names().len() == n);
                }
                0
            },
        }
    }

    /// Who opens the next round, given who opened the last one; `None` only
    /// for an empty roster.
    pub fn get_next_picker(&self, last_pick: &Option<Person>) -> (r: Option<Person>)
        requires
            self.wf(),
        ensures
            r is None <==> self.names().len() == 0,
            r is Some ==> r->Some_0.id() == self.names()[anchor_index(
                self.names(),
                person_name(*last_pick),
            )],
    {
        if self.people.len() == 0 {
            return None;
        }
        let last = match last_pick {
            Some(p) => Some(p.name.clone()),
            None => None,
        };
        let i = self.anchor_of(&last);
        Some(Person::new(self.people[i].name.clone()))
    }

    /// `p` may open group `k`: the round's anchor for the first group, else
    /// the first name in order not placed in an earlier group.
    pub open spec fn opens(self, groups: Seq<Seq<Seq<char>>>, k: int, p: Seq<char>) -> bool {
        if k == 0 {
            p == self.names()[anchor_index(self.names(), self.dealer())]
        } else {
            forall|m: Seq<char>|
                self.names().contains(m) && !placed_before(groups, k, m) && m != p ==> name_lt(p, m)
        }
    }

    /// Of those not placed before group `k`, `q` has shared the fewest
    /// rounds with `p`, and comes first in name order among those tied.
    pub open spec fn best_partner(
        self,
        groups: Seq<Seq<Seq<char>>>,
        k: int,
        p: Seq<char>,
        q: Seq<char>,
    ) -> bool {
        forall|m: Seq<char>|
            self.names().contains(m) && !placed_before(groups, k, m) && m != p && m != q ==> {
                ||| self.pair_count(p, q) < #[trigger] self.pair_count(p, m)
                ||| (self.pair_count(p, q) == self.pair_count(p, m) && name_lt(q, m))
            }
    }

    /// Group `k` holds distinct people from the roster, none placed before.
    pub open spec fn fresh(self, groups: Seq<Seq<Seq<char>>>, k: int) -> bool {
        &&& groups[k].no_duplicates()
        &&& forall|x: int|
            0 <= x < groups[k].len() ==> self.names().contains(#[trigger] groups[k][x])
                && !placed_before(groups, k, groups[k][x])
    }

    /// Group `k` is an opener and the partner it prefers.
    pub open spec fn pair_rule(self, groups: Seq<Seq<Seq<char>>>, k: int) -> bool {
        &&& groups[k].len() == 2
        &&& self.opens(groups, k, groups[k][0])
        &&& self.best_partner(groups, k, groups[k][0], groups[k][1])
    }

    /// `groups` is the round that this roster gives: every name in exactly
    /// one group, pairs chosen in turn, and a final trio when the roster is
    /// odd, its names in order.
    pub open spec fn is_round(self, groups: Seq<Seq<Seq<char>>>) -> bool {
        &&& groups.len() == self.names().len() / 2
        &&& forall|m: Seq<char>| self.names().contains(m) ==> placed(groups, m)
        &&& forall|k: int| 0 <= k < groups.len() ==> self.fresh(groups, k)
        &&& forall|k: int| 0 <= k < groups.len() ==> self.group_rule(groups, k)
    }

    /// The last group of an odd roster is a trio; every other one a pair.
    pub open spec fn group_rule(self, groups: Seq<Seq<Seq<char>>>, k: int) -> bool {
        if k == groups.len() - 1 && self.names().len() % 2 == 1 {
            trio_rule(groups, k)
        } else {
            self.pair_rule(groups, k)
        }
    }

    /// `next` is this roster after the round `groups`: same names, opened by
    /// this round's anchor, each two grouped together one round further.
    pub open spec fn follows(self, groups: Seq<Seq<Seq<char>>>, next: PersonSet) -> bool {
        &&& next.wf()
        &&& next.names() == self.names()
        &&& next.dealer() == Some(self.names()[anchor_index(self.names(), self.dealer())])
        &&& forall|a: Seq<char>, b: Seq<char>|
            a != b ==> #[trigger] next.pair_count(a, b) == self.pair_count(a, b) + together(
                groups,
                a,
                b,
            )
    }

    /// The working set `rem` (indices into the roster) holds exactly the
    /// people not yet placed, and every group so far is a proper pair.
    spec fn progress(self, groups: Seq<Seq<Seq<char>>>, rem: Seq<usize>) -> bool {
        &&& self.people@.len() <= usize::MAX
        &&& ascending(rem)
        &&& forall|a: int| 0 <= a < rem.len() ==> rem[a] < self.people@.len()
        &&& rem.len() + 2 * groups.len() == self.people@.len()
        &&& groups.len() == 0 ==> rem.len() == self.people@.len() && forall|t: int|
            0 <= t < rem.len() ==> rem[t] == t
        &&& forall|i: int|
            0 <= i < self.people@.len() ==> (rem.contains(i as usize) <==> !placed(
                groups,
                #[trigger] self.names()[i],
            ))
        &&& forall|k: int| 0 <= k < groups.len() ==> self.fresh(groups, k) && self.pair_rule(groups, k)
    }

    proof fn lemma_rem_position(self, groups: Seq<Seq<Seq<char>>>, rem: Seq<usize>, m: Seq<char>) -> (t: int)
        requires
            self.wf(),
            self.progress(groups, rem),
            self.names().contains(m),
            !placed(groups, m),
        ensures
            0 <= t < rem.len(),
            self.names()[rem[t] as int] == m,
    {
        let i = choose|i: int| 0 <= i < self.names().len() && self.names()[i] == m;
        assert(rem.contains(i as usize));
        let t = choose|t: int| 0 <= t < rem.len() && rem[t] == i as usize;
        t
    }

    proof fn lemma_pair_group(
        self,
        groups: Seq<Seq<Seq<char>>>,
        rem: Seq<usize>,
        pp: int,
        best: int,
    )
        requires
            self.wf(),
            self.progress(groups, rem),
            0 <= pp < rem.len(),
            0 <= best < rem.len(),
            pp != best,
            groups.len() == 0 ==> rem[pp] == anchor_index(self.names(), self.dealer()),
            groups.len() > 0 ==> pp == 0,
            forall|t: int|
                0 <= t < rem.len() && t != pp ==> {
                    let p = self.names()[rem[pp] as int];
                    let q = self.names()[rem[best] as int];
                    let m = self.names()[#[trigger] rem[t] as int];
                    ||| self.pair_count(p, q) < self.pair_count(p, m)
                    ||| (self.pair_count(p, q) == self.pair_count(p, m) && rem[best] <= rem[t])
                },
        ensures
            ({
                let g2 = groups.push(seq![self.names()[rem[pp] as int], self.names()[rem[best] as int]]);
                &&& self.fresh(g2, groups.len() as int)
                &&& self.pair_rule(g2, groups.len() as int)
            }),
    {
        let names = self.names();
        let p = names[rem[pp] as int];
        let q = names[rem[best] as int];
        let x = seq![p, q];
        let g2 = groups.push(x);
        let k = groups.len() as int;
        lemma_push_placed(groups, x);
        assert(g2[k] == x);
        assert(rem.contains(rem[pp]));
        assert(rem.contains(rem[best]));
        assert(!placed(groups, p));
        assert(!placed(groups, q));
        assert(self.people@[rem[pp] as int].name@ == p);
        assert(self.people@[rem[best] as int].name@ == q);
        assert(p != q) by {
            if p == q {
                self.lemma_index_unique(rem[pp] as int, rem[best] as int);
            }
        }
        assert(self.fresh(g2, k)) by {
            assert(x.no_duplicates());
            assert forall|y: int| 0 <= y < x.len() implies self.names().contains(#[trigger] g2[k][y])
                && !placed_before(g2, k, g2[k][y]) by {
                if y == 0 {
                    assert(names[rem[pp] as int] == p);
                } else {
                    assert(names[rem[best] as int] == q);
                }
            }
        }
        assert(self.opens(g2, k, p)) by {
            if k > 0 {
                assert forall|m: Seq<char>|
                    self.names().contains(m) && !placed_before(g2, k, m) && m != p implies name_lt(p, m) by {
                    let t = self.lemma_rem_position(groups, rem, m);
                    assert(t != 0);
                    assert(rem[0] < rem[t]);
                    assert(name_lt(self.people@[rem[0] as int].name@, self.people@[rem[t] as int].name@));
                }
            }
        }
        assert(self.best_partner(g2, k, p, q)) by {
            assert forall|m: Seq<char>|
                self.names().contains(m) && !placed_before(g2, k, m) && m != p && m != q implies {
                    ||| self.pair_count(p, q) < #[trigger] self.pair_count(p, m)
                    ||| (self.pair_count(p, q) == self.pair_count(p, m) && name_lt(q, m))
                } by {
                let t = self.lemma_rem_position(groups, rem, m);
                assert(t != pp);
                assert(t != best);
                if rem[best] < rem[t] {
                    assert(name_lt(self.people@[rem[best] as int].name@, self.people@[rem[t] as int].name@));
                } else if rem[best] == rem[t] {
                    if best < t {
                        assert(rem[best] < rem[t]);
                    } else {
                        assert(rem[t] < rem[best]);
                    }
                }
            }
        }
    }

    proof fn lemma_pair_step(
        self,
        groups: Seq<Seq<Seq<char>>>,
        rem: Seq<usize>,
        pp: int,
        best: int,
        new_rem: Seq<usize>,
    )
        requires
            self.wf(),
            self.progress(groups, rem),
            0 <= pp < rem.len(),
            0 <= best < rem.len(),
            pp != best,
            ({
                let g2 = groups.push(seq![self.names()[rem[pp] as int], self.names()[rem[best] as int]]);
                &&& self.fresh(g2, groups.len() as int)
                &&& self.pair_rule(g2, groups.len() as int)
            }),
            ascending(new_rem),
            new_rem.len() == rem.len() - 2,
            forall|x: usize|
                new_rem.contains(x) <==> (rem.contains(x) && x != rem[pp] && x != rem[best]),
        ensures
            self.progress(
                groups.push(seq![self.names()[rem[pp] as int], self.names()[rem[best] as int]]),
                new_rem,
            ),
    {
        let names = self.names();
        let p = names[rem[pp] as int];
        let q = names[rem[best] as int];
        let x = seq![p, q];
        let g2 = groups.push(x);
        let k = groups.len() as int;
        lemma_push_placed(groups, x);
        assert forall|kk: int| 0 <= kk < g2.len() implies self.fresh(g2, kk) && self.pair_rule(g2, kk) by {
            if kk < k {
                assert(g2[kk] == groups[kk]);
                assert(self.fresh(groups, kk) && self.pair_rule(groups, kk));
            }
        }
        assert forall|i: int|
            0 <= i < self.people@.len() implies (new_rem.contains(i as usize) <==> !placed(
                g2,
                #[trigger] self.names()[i],
            )) by {
            assert(self.people@[i].name@ == names[i]);
            assert(rem.contains(i as usize) <==> !placed(groups, names[i]));
            if names[i] == p {
                self.lemma_index_unique(i, rem[pp] as int);
            }
            if names[i] == q {
                self.lemma_index_unique(i, rem[best] as int);
            }
            if x.contains(names[i]) {
                let y = choose|y: int| 0 <= y < 2 && x[y] == names[i];
                assert(y == 0 || y == 1);
            }
        }
        assert forall|a: int| 0 <= a < new_rem.len() implies new_rem[a] < self.people@.len() by {
            assert(new_rem.contains(new_rem[a]));
        }
    }

    proof fn lemma_round_even(self, groups: Seq<Seq<Seq<char>>>, rem: Seq<usize>)
        requires
            self.wf(),
            self.progress(groups, rem),
            rem.len() == 0,
        ensures
            self.is_round(groups),
    {
        assert forall|m: Seq<char>| self.names().contains(m) implies placed(groups, m) by {
            let i = choose|i: int| 0 <= i < self.names().len() && self.names()[i] == m;
            assert(!rem.contains(i as usize));
        }
    }

    proof fn lemma_round_trio(self, groups: Seq<Seq<Seq<char>>>, rem: Seq<usize>)
        requires
            self.wf(),
            self.progress(groups, rem),
            rem.len() == 3,
        ensures
            self.is_round(
                groups.push(
                    seq![
                        self.names()[rem[0] as int],
                        self.names()[rem[1] as int],
                        self.names()[rem[2] as int],
                    ],
                ),
            ),
    {
        let names = self.names();
        let x = seq![names[rem[0] as int], names[rem[1] as int], names[rem[2] as int]];
        let g2 = groups.push(x);
        let k = groups.len() as int;
        lemma_push_placed(groups, x);
        assert(g2[k] == x);
        assert(names.len() == 3 + 2 * groups.len());
        assert(names.len() % 2 == 1);
        assert(g2.len() == names.len() / 2);
        assert(rem[0] < rem[1] && rem[1] < rem[2]);
        assert(name_lt(self.people@[rem[0] as int].name@, self.people@[rem[1] as int].name@));
        assert(name_lt(self.people@[rem[1] as int].name@, self.people@[rem[2] as int].name@));
        assert(name_lt(self.people@[rem[0] as int].name@, self.people@[rem[2] as int].name@));
        lemma_name_lt_irreflexive(names[rem[0] as int]);
        lemma_name_lt_irreflexive(names[rem[1] as int]);
        lemma_name_lt_irreflexive(names[rem[2] as int]);
        assert(trio_rule(g2, k));
        assert forall|y: int| 0 <= y < 3 implies !placed(groups, #[trigger] x[y]) by {
            assert(rem.contains(rem[y]));
            assert(x[y] == names[rem[y] as int]);
        }
        assert(self.fresh(g2, k)) by {
            assert(x.no_duplicates());
            assert forall|y: int| 0 <= y < x.len() implies self.names().contains(#[trigger] g2[k][y])
                && !placed_before(g2, k, g2[k][y]) by {
                assert(g2[k][y] == x[y]);
                assert(names.contains(names[rem[y] as int]));
            }
        }
        assert forall|kk: int| 0 <= kk < g2.len() implies self.fresh(g2, kk) by {
            if kk < k {
                assert(g2[kk] == groups[kk]);
                assert(self.fresh(groups, kk));
            }
        }
        assert forall|kk: int| 0 <= kk < g2.len() implies self.group_rule(g2, kk)
        by {
            if kk < k {
                assert(g2[kk] == groups[kk]);
                assert(self.pair_rule(groups, kk));
                assert(kk != g2.len() - 1);
                assert(self.opens(g2, kk, g2[kk][0]));
                assert(self.best_partner(g2, kk, g2[kk][0], g2[kk][1]));
                assert(self.pair_rule(g2, kk));
            } else {
                assert(kk == g2.len() - 1);
                assert(trio_rule(g2, kk));
            }
        }
        assert forall|m: Seq<char>| self.names().contains(m) implies placed(g2, m) by {
            let i = choose|i: int| 0 <= i < self.names().len() && self.names()[i] == m;
            if rem.contains(i as usize) {
                let t = choose|t: int| 0 <= t < 3 && rem[t] == i as usize;
                assert(x[t] == m);
                assert(x.contains(m));
            } else {
                assert(placed(groups, self.names()[i]));
            }
        }
    }

    /// Under the usual bound on counts, a round can be recorded: its
    /// groups fit the roster and no count overflows.
    pub proof fn lemma_round_fits(self, groups: Seq<Seq<Seq<char>>>)
        requires
            self.wf(),
            self.is_round(groups),
            forall|a: Seq<char>, b: Seq<char>| #[trigger] self.pair_count(a, b) < u64::MAX,
        ensures
            self.fits(groups),
            forall|a: Seq<char>, b: Seq<char>|
                #[trigger] self.pair_count(a, b) + together(groups, a, b) <= u64::MAX,
    {
        assert forall|k: int, x: int|
            0 <= k < groups.len() && 0 <= x < groups[k].len() implies !placed_before(
            groups,
            k,
            #[trigger] groups[k][x],
        ) by {
            assert(self.fresh(groups, k));
        }
        assert forall|a: Seq<char>, b: Seq<char>|
            #[trigger] self.pair_count(a, b) + together(groups, a, b) <= u64::MAX by {
            lemma_together_at_most_once(groups, a, b);
        }
        assert forall|k: int| 0 <= k < groups.len() implies (#[trigger] groups[k]).no_duplicates() by {
            assert(self.fresh(groups, k));
        }
        assert forall|k: int, x: int|
            0 <= k < groups.len() && 0 <= x < groups[k].len() implies self.names().contains(
            #[trigger] groups[k][x],
        ) by {
            assert(self.fresh(groups, k));
        }
    }

    /// The position in `rem` of the partner that the person at `pp` prefers.
    fn partner_for(&self, rem: &Vec<usize>, pp: usize, Ghost(groups): Ghost<Seq<Seq<Seq<char>>>>) -> (best: usize)
        requires
            self.wf(),
            self.progress(groups, rem@),
            pp < rem@.len(),
            rem@.len() >= 2,
        ensures
            best < rem@.len(),
            best != pp,
            forall|t: int|
                0 <= t < rem@.len() && t != pp ==> {
                    let p = self.names()[rem@[pp as int] as int];
                    let q = self.names()[rem@[best as int] as int];
                    let m = self.names()[#[trigger] rem@[t] as int];
                    ||| self.pair_count(p, q) < self.pair_count(p, m)
                    ||| (self.pair_count(p, q) == self.pair_count(p, m) && rem@[best as int] <= rem@[t])
                },
    {
        let picker = rem[pp];
        let mut best: usize = if pp == 0 {
            1
        } else {
            0
        };
        proof {
            self.lemma_pair_count_at(picker as int, self.names()[rem@[best as int] as int]);
        }
        let mut best_w = self.people[picker].get_weighting(&self.people[rem[best]]);
        let mut j: usize = best + 1;
        while j < rem.len()
            invariant
                self.wf(),
                self.progress(groups, rem@),
                pp < rem@.len(),
                picker == rem@[pp as int],
                best < j <= rem@.len(),
                best != pp,
                best_w == self.pair_count(self.names()[picker as int], self.names()[rem@[best as int] as int]),
                forall|t: int|
                    0 <= t < j && t != pp ==> {
                        let p = self.names()[picker as int];
                        let m = self.names()[#[trigger] rem@[t] as int];
                        ||| best_w < self.pair_count(p, m)
                        ||| (best_w == self.pair_count(p, m) && rem@[best as int] <= rem@[t])
                    },
            decreases rem@.len() - j,
        {
            if j != pp {
                proof {
                    self.lemma_pair_count_at(picker as int, self.names()[rem@[j as int] as int]);
                }
                let w = self.people[picker].get_weighting(&self.people[rem[j]]);
                if w < best_w {
                    best = j;
                    best_w = w;
                }
            }
            j = j + 1;
        }
        best
    }

    /// Nobody is grouped with themself.
    pub proof fn lemma_no_self_count(self, a: Seq<char>)
        requires
            self.wf(),
        ensures
            self.pair_count(a, a) == 0,
    {
        if self.names().contains(a) {
            let i = choose|i: int| 0 <= i < self.people@.len() && self.names()[i] == a;
            self.lemma_pair_count_at(i, a);
        }
    }

    /// Each person on the roster stands in exactly one group of a round.
    pub proof fn lemma_round_places_once(self, groups: Seq<Seq<Seq<char>>>, m: Seq<char>)
        requires
            self.wf(),
            self.is_round(groups),
            self.names().contains(m),
        ensures
            placed(groups, m),
            forall|k1: int, k2: int|
                #![trigger groups[k1].contains(m), groups[k2].contains(m)]
                0 <= k1 < groups.len() && 0 <= k2 < groups.len() && groups[k1].contains(m)
                    && groups[k2].contains(m) ==> k1 == k2,
            forall|k: int| 0 <= k < groups.len() ==> (#[trigger] groups[k]).no_duplicates(),
    {
        assert forall|k1: int, k2: int|
            #![trigger groups[k1].contains(m), groups[k2].contains(m)]
            0 <= k1 < groups.len() && 0 <= k2 < groups.len() && groups[k1].contains(m)
                && groups[k2].contains(m) implies k1 == k2 by {
            assert(self.fresh(groups, k1));
            assert(self.fresh(groups, k2));
            let x1 = choose|x: int| 0 <= x < groups[k1].len() && groups[k1][x] == m;
            let x2 = choose|x: int| 0 <= x < groups[k2].len() && groups[k2][x] == m;
            assert(!placed_before(groups, k1, groups[k1][x1]));
            assert(!placed_before(groups, k2, groups[k2][x2]));
            if k1 < k2 {
                assert(placed_before(groups, k2, m));
            } else if k2 < k1 {
                assert(placed_before(groups, k1, m));
            }
        }
        assert forall|k: int| 0 <= k < groups.len() implies (#[trigger] groups[k]).no_duplicates() by {
            assert(self.fresh(groups, k));
        }
    }

    /// A round has one group per two people; each is a pair, but for the
    /// last group of an odd roster, which is a trio.
    pub proof fn lemma_round_arity(self, groups: Seq<Seq<Seq<char>>>)
        requires
            self.wf(),
            self.is_round(groups),
        ensures
            groups.len() == self.names().len() / 2,
            forall|k: int|
                0 <= k < groups.len() ==> (#[trigger] groups[k]).len() == 2 || groups[k].len() == 3,
            forall|k: int|
                0 <= k < groups.len() ==> ((#[trigger] groups[k]).len() == 3 <==> (k == groups.len() - 1
                    && self.names().len() % 2 == 1)),
    {
        assert forall|k: int| 0 <= k < groups.len() implies ((#[trigger] groups[k]).len() == 2
            || groups[k].len() == 3) && (groups[k].len() == 3 <==> (k == groups.len() - 1
            && self.names().len() % 2 == 1)) by {
            assert(self.group_rule(groups, k));
        }
    }

    proof fn lemma_rounds_agree_at(self, g1: Seq<Seq<Seq<char>>>, g2: Seq<Seq<Seq<char>>>, k: int)
        requires
            self.wf(),
            self.is_round(g1),
            self.is_round(g2),
            0 <= k < g1.len(),
            forall|j: int| 0 <= j < k ==> g1[j] == g2[j],
        ensures
            g1[k] == g2[k],
    {
        assert forall|m: Seq<char>| placed_before(g1, k, m) == placed_before(g2, k, m) by {
            if placed_before(g1, k, m) {
                let j = choose|j: int| 0 <= j < k && #[trigger] g1[j].contains(m);
                assert(g2[j] == g1[j]);
            }
            if placed_before(g2, k, m) {
                let j = choose|j: int| 0 <= j < k && #[trigger] g2[j].contains(m);
                assert(g2[j] == g1[j]);
            }
        }
        assert(self.fresh(g1, k));
        assert(self.fresh(g2, k));
        assert(self.group_rule(g1, k));
        assert(self.group_rule(g2, k));
        let x = g1[k];
        let y = g2[k];
        if k == g1.len() - 1 && self.names().len() % 2 == 1 {
            assert forall|i: int| 0 <= i < 3 implies x.contains(#[trigger] y[i]) by {
                assert(self.names().contains(y[i]));
                assert(!placed_before(g2, k, y[i]));
                assert(placed(g1, y[i]));
                let j = choose|j: int| 0 <= j < g1.len() && #[trigger] g1[j].contains(y[i]);
                if j < k {
                    assert(placed_before(g1, k, y[i]));
                }
            }
            assert forall|i: int| 0 <= i < 3 implies y.contains(#[trigger] x[i]) by {
                assert(self.names().contains(x[i]));
                assert(!placed_before(g1, k, x[i]));
                assert(placed(g2, x[i]));
                let j = choose|j: int| 0 <= j < g2.len() && #[trigger] g2[j].contains(x[i]);
                if j < k {
                    assert(placed_before(g2, k, x[i]));
                }
            }
            lemma_trio_unique(x, y);
        } else {
            assert(self.pair_rule(g1, k));
            assert(self.pair_rule(g2, k));
            assert(self.names().contains(x[0]) && !placed_before(g1, k, x[0]));
            assert(self.names().contains(y[0]) && !placed_before(g2, k, y[0]));
            assert(self.names().contains(x[1]) && !placed_before(g1, k, x[1]));
            assert(self.names().contains(y[1]) && !placed_before(g2, k, y[1]));
            assert(x[0] != x[1]);
            assert(y[0] != y[1]);
            if k > 0 && x[0] != y[0] {
                assert(name_lt(x[0], y[0]));
                assert(name_lt(y[0], x[0]));
                lemma_name_lt_asymmetric(x[0], y[0]);
            }
            assert(x[0] == y[0]);
            if x[1] != y[1] {
                let p = x[0];
                assert(self.best_partner(g1, k, p, x[1]));
                assert(self.best_partner(g2, k, p, y[1]));
                assert(self.pair_count(p, x[1]) < self.pair_count(p, y[1]) || (self.pair_count(p, x[1])
                    == self.pair_count(p, y[1]) && name_lt(x[1], y[1])));
                assert(self.pair_count(p, y[1]) < self.pair_count(p, x[1]) || (self.pair_count(p, y[1])
                    == self.pair_count(p, x[1]) && name_lt(y[1], x[1])));
                lemma_name_lt_asymmetric(x[1], y[1]);
            }
            assert(x =~= y);
        }
    }

    proof fn lemma_rounds_agree_upto(self, g1: Seq<Seq<Seq<char>>>, g2: Seq<Seq<Seq<char>>>, k: int)
        requires
            self.wf(),
            self.is_round(g1),
            self.is_round(g2),
            0 <= k <= g1.len(),
        ensures
            forall|j: int| 0 <= j < k ==> g1[j] == g2[j],
        decreases k,
    {
        if k > 0 {
            self.lemma_rounds_agree_upto(g1, g2, k - 1);
            self.lemma_rounds_agree_at(g1, g2, k - 1);
        }
    }

    /// The same roster, history and last opener always give the same round
    /// and the same roster after it.
    pub proof fn lemma_round_deterministic(
        self,
        g1: Seq<Seq<Seq<char>>>,
        g2: Seq<Seq<Seq<char>>>,
        next1: PersonSet,
        next2: PersonSet,
    )
        requires
            self.wf(),
            self.is_round(g1),
            self.is_round(g2),
            self.follows(g1, next1),
            self.follows(g2, next2),
        ensures
            g1 == g2,
            next1.names() == next2.names(),
            next1.dealer() == next2.dealer(),
            forall|a: Seq<char>, b: Seq<char>| #[trigger] next1.pair_count(a, b) == next2.pair_count(a, b),
    {
        self.lemma_rounds_agree_upto(g1, g2, g1.len() as int);
        assert(g1 =~= g2);
        assert forall|a: Seq<char>, b: Seq<char>| #[trigger] next1.pair_count(a, b) == next2.pair_count(a, b) by {
            if a == b {
                next1.lemma_no_self_count(a);
                next2.lemma_no_self_count(a);
            }
        }
    }

    /// Rounds on this roster, as long as nobody joins, let each person open
    /// exactly once in every run of as many rounds as there are people, in
    /// name order from the next opener.
    pub proof fn lemma_openers_rotate(self)
        requires
            self.wf(),
            self.names().len() > 0,
        ensures
            rotation_covers(self.names(), self.dealer()),
    {
        assert forall|i: int, j: int| 0 <= i < j < self.names().len() implies name_lt(
            #[trigger] self.names()[i],
            #[trigger] self.names()[j],
        ) by {
            assert(name_lt(self.people@[i].name@, self.people@[j].name@));
        }
        lemma_rotation_covers(self.names(), self.dealer());
    }

    /// How many rounds the people called `a` and `b` have shared; 0 where
    /// either is not on the roster.
    pub fn count_between(&self, a: &String, b: &String) -> (r: u64)
        requires
            self.wf(),
        ensures
            r == self.pair_count(a@, b@),
    {
        let (i, found) = self.position_of(a);
        if !found {
            proof {
                if self.names().contains(a@) {
                    let m = choose|m: int| 0 <= m < self.names().len() && self.names()[m] == a@;
                    assert(self.people@[m].name@ == a@);
                    lemma_name_lt_irreflexive(a@);
                    if m > i {
                        assert(name_lt(self.people@[i as int].name@, self.people@[m].name@));
                        lemma_name_lt_asymmetric(a@, self.people@[i as int].name@);
                    }
                }
            }
            return 0;
        }
        let other = Person::new(b.clone());
        proof {
            self.lemma_pair_count_at(i as int, b@);
        }
        self.people[i].get_weighting(&other)
    }

    /// The number of people on the roster.
    pub fn len(&self) -> (r: usize)
        ensures
            r == self.names().len(),
    {
        self.people.len()
    }

    /// Two rosters with the same names, counts and last opener give the same
    /// round and the same roster after it.
    pub proof fn lemma_equal_rosters_agree(
        self,
        other: PersonSet,
        g1: Seq<Seq<Seq<char>>>,
        g2: Seq<Seq<Seq<char>>>,
        next1: PersonSet,
        next2: PersonSet,
    )
        requires
            self.wf(),
            other.wf(),
            self.names() == other.names(),
            self.dealer() == other.dealer(),
            forall|a: Seq<char>, b: Seq<char>| #[trigger] self.pair_count(a, b) == other.pair_count(a, b),
            self.is_round(g1),
            other.is_round(g2),
            self.follows(g1, next1),
            other.follows(g2, next2),
        ensures
            g1 == g2,
            next1.names() == next2.names(),
            next1.dealer() == next2.dealer(),
            forall|a: Seq<char>, b: Seq<char>| #[trigger] next1.pair_count(a, b) == next2.pair_count(a, b),
    {
        assert forall|k: int| 0 <= k < g2.len() implies self.fresh(g2, k) && self.group_rule(g2, k) by {
            assert(other.fresh(g2, k));
            assert(other.group_rule(g2, k));
            if !(k == g2.len() - 1 && self.names().len() % 2 == 1) {
                assert(other.pair_rule(g2, k));
                assert(other.best_partner(g2, k, g2[k][0], g2[k][1]));
                assert(self.best_partner(g2, k, g2[k][0], g2[k][1]));
            }
        }
        assert(self.is_round(g2));
        assert(self.follows(g2, next2));
        self.lemma_round_deterministic(g1, g2, next1, next2);
    }

    /// Forms one round: splits the roster into pairs, with a trio at the end
    /// when it is odd. The first pair is opened by the participant after the
    /// last round's opener; each later pair by the first name left. Each
    /// opener takes, of those left, the one shared fewest rounds with, ties
    /// going to the first name. Returns the groups and the roster with the
    /// round recorded.
    #[verifier::rlimit(60)]
    pub fn make_selection(self) -> (r: Result<(Vec<Pick>, PersonSet), SelectionError>)
        requires
            self.wf(),
            forall|a: Seq<char>, b: Seq<char>| #[trigger] self.pair_count(a, b) < u64::MAX,
        ensures
            match r {
                Ok((picks, next)) => {
                    &&& self.names().len() >= 2
                    &&& self.is_round(groups_of(picks@))
                    &&& self.follows(groups_of(picks@), next)
                },
                Err(e) => self.names().len() < 2 && e == SelectionError::InsufficientParticipants,
            },
    {
        let n = self.people.len();
        if n < 2 {
            return Err(SelectionError::InsufficientParticipants);
        }
        let anchor = self.anchor_of(&self.previous_dealer);
        let mut rem: Vec<usize> = Vec::new();
        let mut i: usize = 0;
        while i < n
            invariant
                i <= n,
                rem@.len() == i,
                forall|t: int| 0 <= t < i ==> rem@[t] == t,
            decreases n - i,
        {
            rem.push(i);
            i = i + 1;
        }
        let mut picks: Vec<Pick> = Vec::new();
        proof {
            assert(groups_of(picks@) =~= Seq::<Seq<Seq<char>>>::empty());
            assert forall|i: int|
                0 <= i < self.people@.len() implies (rem@.contains(i as usize) <==> !placed(
                groups_of(picks@),
                #[trigger] self.names()[i],
            )) by {
                assert(rem@[i] == i);
            }
        }
        while rem.len() != 3 && rem.len() != 0
            invariant
                self.wf(),
                n == self.people@.len(),
                n >= 2,
                anchor == anchor_index(self.names(), self.dealer()),
                anchor < n,
                self.progress(groups_of(picks@), rem@),
                rem@.len() != 1,
            decreases rem@.len(),
        {
            let ghost groups = groups_of(picks@);
            let pp: usize = if picks.len() == 0 {
                anchor
            } else {
                0
            };
            let picker = rem[pp];
            let best = self.partner_for(&rem, pp, Ghost(groups));
            let partner = rem[best];
            proof {
                self.lemma_pair_group(groups, rem@, pp as int, best as int);
            }
            let pick = Pick::Pair(
                Person::new(self.people[picker].name.clone()),
                Person::new(self.people[partner].name.clone()),
            );
            let ghost x = pick.members();
            picks.push(pick);
            let new_rem = without_two(&rem, pp, best);
            proof {
                assert(x =~= seq![self.names()[rem@[pp as int] as int], self.names()[rem@[best as int] as int]]);
                assert(groups_of(picks@) =~= groups.push(x));
                self.lemma_pair_step(groups, rem@, pp as int, best as int, new_rem@);
            }
            rem = new_rem;
        }
        if rem.len() == 3 {
            let ghost groups = groups_of(picks@);
            let pick = Pick::Triple(
                Person::new(self.people[rem[0]].name.clone()),
                Person::new(self.people[rem[1]].name.clone()),
                Person::new(self.people[rem[2]].name.clone()),
            );
            let ghost x = pick.members();
            picks.push(pick);
            proof {
                assert(x =~= seq![
                    self.names()[rem@[0] as int],
                    self.names()[rem@[1] as int],
                    self.names()[rem@[2] as int],
                ]);
                assert(groups_of(picks@) =~= groups.push(x));
                self.lemma_round_trio(groups, rem@);
            }
        } else {
            proof {
                self.lemma_round_even(groups_of(picks@), rem@);
            }
        }
        let dealer = Person::new(self.people[anchor].name.clone());
        let ghost before = self;
        let mut next = self;
        proof {
            before.lemma_round_fits(groups_of(picks@));
        }
        next.apply_picks(&picks, Some(dealer));
        Ok((picks, next))
    }

    /// Each group holds distinct names, all on the roster.
    pub open spec fn fits(self, groups: Seq<Seq<Seq<char>>>) -> bool {
        &&& forall|k: int| 0 <= k < groups.len() ==> (#[trigger] groups[k]).no_duplicates()
        &&& forall|k: int, x: int|
            0 <= k < groups.len() && 0 <= x < groups[k].len() ==> self.names().contains(
                #[trigger] groups[k][x],
            )
    }

    /// Records a finished round: each two people grouped together have
    /// shared one more round, once per group they share; `dealer` opened it.
    pub fn apply_picks(&mut self, picks: &Vec<Pick>, dealer: Option<Person>)
        requires
            old(self).wf(),
            old(self).fits(groups_of(picks@)),
            forall|a: Seq<char>, b: Seq<char>|
                #[trigger] old(self).pair_count(a, b) + together(groups_of(picks@), a, b)
                    <= u64::MAX,
        ensures
            final(self).wf(),
            final(self).names() == old(self).names(),
            final(self).dealer() == person_name(dealer),
            forall|a: Seq<char>, b: Seq<char>|
                a != b ==> #[trigger] final(self).pair_count(a, b) == old(self).pair_count(a, b)
                    + together(groups_of(picks@), a, b),
    {
        let ghost s0 = *self;
        let ghost groups = groups_of(picks@);
        let mut k: usize = 0;
        while k < picks.len()
            invariant
                s0 == *old(self),
                groups == groups_of(picks@),
                groups.len() == picks@.len(),
                s0.wf(),
                s0.fits(groups),
                forall|a: Seq<char>, b: Seq<char>|
                    #[trigger] s0.pair_count(a, b) + together(groups, a, b) <= u64::MAX,
                k <= picks@.len(),
                self.people@.len() == s0.people@.len(),
                self.previous_dealer == s0.previous_dealer,
                forall|i: int|
                    0 <= i < self.people@.len() ==> #[trigger] self.people@[i].name@
                        == s0.people@[i].name@,
                forall|i: int| 0 <= i < self.people@.len() ==> (#[trigger] self.people@[i]).wf(),
                forall|i: int, n: Seq<char>|
                    0 <= i < self.people@.len() ==> #[trigger] self.people@[i].weight_of(n)
                        == s0.people@[i].weight_of(n) + (if n != s0.people@[i].name@ {
                        together(groups.subrange(0, k as int), s0.people@[i].name@, n)
                    } else {
                        0nat
                    }),
            decreases picks@.len() - k,
        {
            let members = picks[k].member_names();
            let ghost g = groups[k as int];
            let ghost pre = groups.subrange(0, k as int);
            proof {
                assert(strs(members@) =~= g);
                assert(self.names() =~= s0.names());
                assert(self.sorted()) by {
                    assert forall|i: int, j: int| 0 <= i < j < self.people@.len() implies name_lt(
                        #[trigger] self.people@[i].name@,
                        #[trigger] self.people@[j].name@,
                    ) by {
                        assert(name_lt(s0.people@[i].name@, s0.people@[j].name@));
                    }
                }
                assert forall|u: int| 0 <= u < members@.len() implies self.names().contains(
                    #[trigger] members@[u]@,
                ) by {
                    assert(members@[u]@ == groups[k as int][u]);
                }
                assert(groups.subrange(0, k + 1) =~= pre.push(g));
                assert forall|i: int, n: Seq<char>|
                    0 <= i < self.people@.len() && strs(members@).contains(self.people@[i].name@)
                        && strs(members@).contains(n) && n != self.people@[i].name@
                        implies #[trigger] self.people@[i].weight_of(n) < u64::MAX by {
                    let ni = s0.people@[i].name@;
                    lemma_together_push(pre, g, ni, n);
                    lemma_together_prefix(groups, k + 1, ni, n);
                    s0.lemma_pair_count_at(i, n);
                }
            }
            let ghost mid = self.people@;
            self.apply_group(&members);
            proof {
                assert forall|i: int| 0 <= i < self.people@.len() implies #[trigger] self.people@[i].name@
                    == s0.people@[i].name@ by {
                    assert(self.people@[i].name@ == mid[i].name@);
                }
                assert forall|i: int, n: Seq<char>|
                    0 <= i < self.people@.len() implies #[trigger] self.people@[i].weight_of(n)
                        == s0.people@[i].weight_of(n) + (if n != s0.people@[i].name@ {
                        together(groups.subrange(0, k + 1), s0.people@[i].name@, n)
                    } else {
                        0nat
                    }) by {
                    lemma_together_push(pre, g, s0.people@[i].name@, n);
                }
            }
            k = k + 1;
        }
        self.previous_dealer = match dealer {
            Some(p) => Some(p.name),
            None => None,
        };
        proof {
            assert(groups.subrange(0, k as int) =~= groups);
            PersonSet::lemma_applied(s0, *self, groups);
        }
    }

    proof fn lemma_applied(s0: PersonSet, s1: PersonSet, groups: Seq<Seq<Seq<char>>>)
        requires
            s0.wf(),
            s0.fits(groups),
            s1.people@.len() == s0.people@.len(),
            forall|i: int|
                0 <= i < s1.people@.len() ==> #[trigger] s1.people@[i].name@ == s0.people@[i].name@,
            forall|i: int| 0 <= i < s1.people@.len() ==> (#[trigger] s1.people@[i]).wf(),
            forall|i: int, n: Seq<char>|
                0 <= i < s1.people@.len() ==> #[trigger] s1.people@[i].weight_of(n)
                    == s0.people@[i].weight_of(n) + (if n != s0.people@[i].name@ {
                    together(groups, s0.people@[i].name@, n)
                } else {
                    0nat
                }),
        ensures
            s1.wf(),
            s1.names() == s0.names(),
            forall|a: Seq<char>, b: Seq<char>|
                a != b ==> #[trigger] s1.pair_count(a, b) == s0.pair_count(a, b) + together(
                    groups,
                    a,
                    b,
                ),
    {
        assert(s1.names() =~= s0.names());
        assert forall|i: int, j: int| 0 <= i < j < s1.people@.len() implies name_lt(
            #[trigger] s1.people@[i].name@,
            #[trigger] s1.people@[j].name@,
        ) by {
            assert(name_lt(s0.people@[i].name@, s0.people@[j].name@));
        }
        assert forall|i: int, n: Seq<char>|
            0 <= i < s1.people@.len() && #[trigger] s1.people@[i].weight_of(n) > 0 implies s1.names().contains(n) by {
            if s0.people@[i].weight_of(n) == 0 {
                if !placed(groups, n) {
                    lemma_together_unplaced(groups, s0.people@[i].name@, n);
                }
                let k = choose|k: int| 0 <= k < groups.len() && #[trigger] groups[k].contains(n);
                let x = choose|x: int| 0 <= x < groups[k].len() && groups[k][x] == n;
                assert(s0.names().contains(groups[k][x]));
            }
        }
        assert forall|i: int, j: int|
            0 <= i < s1.people@.len() && 0 <= j < s1.people@.len() implies (#[trigger] s1.people@[i]).weight_of(
            s1.people@[j].name@,
        ) == (#[trigger] s1.people@[j]).weight_of(s1.people@[i].name@) by {
            lemma_together_symmetric(groups, s0.people@[i].name@, s0.people@[j].name@);
            if i != j {
                if s0.people@[i].name@ == s0.people@[j].name@ {
                    s0.lemma_index_unique(i, j);
                }
            }
        }
        assert forall|i: int| 0 <= i < s1.people@.len() implies #[trigger] s1.people@[i].weight_of(
            s1.people@[i].name@,
        ) == 0 by {
            assert(s0.people@[i].weight_of(s0.people@[i].name@) == 0);
        }
        assert(s1.wf());
        assert forall|a: Seq<char>, b: Seq<char>| a != b implies #[trigger] s1.pair_count(a, b)
            == s0.pair_count(a, b) + together(groups, a, b) by {
            if s0.names().contains(a) {
                let i = choose|i: int| 0 <= i < s0.people@.len() && s0.names()[i] == a;
                s0.lemma_pair_count_at(i, b);
                s1.lemma_pair_count_at(i, b);
            } else {
                if placed(groups, a) {
                    let k = choose|k: int| 0 <= k < groups.len() && #[trigger] groups[k].contains(a);
                    let x = choose|x: int| 0 <= x < groups[k].len() && groups[k][x] == a;
                    assert(s0.names().contains(groups[k][x]));
                }
                lemma_together_unplaced(groups, a, b);
            }
        }
    }

    /// Counts one more shared round between each two people in `members`.
    fn apply_group(&mut self, members: &Vec<String>)
        requires
            old(self).sorted(),
            forall|i: int| 0 <= i < old(self).people@.len() ==> (#[trigger] old(self).people@[i]).wf(),
            strs(members@).no_duplicates(),
            forall|u: int| 0 <= u < members@.len() ==> old(self).names().contains(#[trigger] members@[u]@),
            forall|i: int, n: Seq<char>|
                0 <= i < old(self).people@.len() && strs(members@).contains(old(self).people@[i].name@)
                    && strs(members@).contains(n) && n != old(self).people@[i].name@
                    ==> #[trigger] old(self).people@[i].weight_of(n) < u64::MAX,
        ensures
            final(self).people@.len() == old(self).people@.len(),
            final(self).previous_dealer == old(self).previous_dealer,
            forall|i: int|
                0 <= i < final(self).people@.len() ==> #[trigger] final(self).people@[i].name@
                    == old(self).people@[i].name@,
            forall|i: int| 0 <= i < final(self).people@.len() ==> (#[trigger] final(self).people@[i]).wf(),
            forall|i: int, n: Seq<char>|
                0 <= i < final(self).people@.len() ==> #[trigger] final(self).people@[i].weight_of(n)
                    == old(self).people@[i].weight_of(n) + (if n != old(self).people@[i].name@
                    && strs(members@).contains(old(self).people@[i].name@) && strs(
                    members@,
                ).contains(n) {
                    1nat
                } else {
                    0nat
                }),
    {
        let ghost s0 = *self;
        let ghost g = strs(members@);
        let mut j: usize = 0;
        while j < members.len()
            invariant
                s0 == *old(self),
                g == strs(members@),
                g.no_duplicates(),
                s0.sorted(),
                forall|u: int| 0 <= u < members@.len() ==> s0.names().contains(#[trigger] members@[u]@),
                forall|i: int, n: Seq<char>|
                    0 <= i < s0.people@.len() && g.contains(s0.people@[i].name@) && g.contains(n)
                        && n != s0.people@[i].name@ ==> #[trigger] s0.people@[i].weight_of(n) < u64::MAX,
                j <= members@.len(),
                self.people@.len() == s0.people@.len(),
                self.previous_dealer == s0.previous_dealer,
                forall|i: int|
                    0 <= i < self.people@.len() ==> #[trigger] self.people@[i].name@
                        == s0.people@[i].name@,
                forall|i: int| 0 <= i < self.people@.len() ==> (#[trigger] self.people@[i]).wf(),
                forall|i: int, n: Seq<char>|
                    0 <= i < self.people@.len() ==> #[trigger] self.people@[i].weight_of(n)
                        == s0.people@[i].weight_of(n) + (if n != s0.people@[i].name@ && (exists|t: int|
                        0 <= t < j && g[t] == s0.people@[i].name@) && g.contains(n) {
                        1nat
                    } else {
                        0nat
                    }),
            decreases members@.len() - j,
        {
            proof {
                assert(self.sorted());
            }
            let (idx, found) = self.position_of(&members[j]);
            proof {
                assert(g[j as int] == members@[j as int]@);
                let m = choose|m: int| 0 <= m < s0.names().len() && s0.names()[m] == members@[j as int]@;
                assert(s0.people@[m].name@ == members@[j as int]@);
                assert(self.people@[m].name@ == members@[j as int]@);
                lemma_name_lt_irreflexive(members@[j as int]@);
                if !found {
                    if m < idx {
                        assert(name_lt(self.people@[m].name@, members@[j as int]@));
                    } else if m > idx {
                        assert(name_lt(self.people@[idx as int].name@, self.people@[m].name@));
                        lemma_name_lt_asymmetric(members@[j as int]@, self.people@[idx as int].name@);
                    }
                }
                assert(found);
                assert(g[j as int] == s0.people@[idx as int].name@);
            }
            let others = others_than(members, j);
            let ghost before = self.people@;
            proof {
                assert forall|n: Seq<char>|
                    lists(others@, n) implies before[idx as int].weight_of(n) < u64::MAX by {
                    let u = choose|u: int|
                        0 <= u < members@.len() && u != j && #[trigger] members@[u]@ == n;
                    assert(g[u] == n);
                    assert(g.contains(n));
                    assert(g.contains(s0.people@[idx as int].name@));
                    assert(n != s0.people@[idx as int].name@);
                    if exists|t: int| 0 <= t < j && g[t] == s0.people@[idx as int].name@ {
                        let t = choose|t: int| 0 <= t < j && g[t] == s0.people@[idx as int].name@;
                        assert(g[t] == g[j as int]);
                    }
                }
            }
            self.people[idx].update_weighting(others);
            proof {
                assert forall|i: int| 0 <= i < self.people@.len() implies #[trigger] self.people@[i].name@
                    == s0.people@[i].name@ by {
                    if i != idx {
                        assert(self.people@[i] == before[i]);
                    } else {
                        assert(self.people@[i].id() == before[i].id());
                    }
                }
                assert forall|i: int, n: Seq<char>|
                    0 <= i < self.people@.len() implies #[trigger] self.people@[i].weight_of(n)
                        == s0.people@[i].weight_of(n) + (if n != s0.people@[i].name@ && (exists|t: int|
                        0 <= t < j + 1 && g[t] == s0.people@[i].name@) && g.contains(n) {
                        1nat
                    } else {
                        0nat
                    }) by {
                    if i == idx {
                        assert(g[j as int] == s0.people@[i].name@);
                        if exists|t: int| 0 <= t < j && g[t] == s0.people@[i].name@ {
                            let t = choose|t: int| 0 <= t < j && g[t] == s0.people@[i].name@;
                            assert(g[t] == g[j as int]);
                        }
                        if g.contains(n) && n != s0.people@[i].name@ {
                            let u = choose|u: int| 0 <= u < g.len() && g[u] == n;
                            assert(members@[u]@ == n);
                            assert(lists(others@, n));
                        }
                        if lists(others@, n) {
                            let u = choose|u: int|
                                0 <= u < members@.len() && u != j && #[trigger] members@[u]@ == n;
                            assert(g[u] == n);
                            assert(g[u] != g[j as int]);
                        }
                    } else {
                        assert(self.people@[i] == before[i]);
                        if g[j as int] == s0.people@[i].name@ {
                            self.lemma_index_unique_sorted(i, idx as int);
                        }
                    }
                }
            }
            j = j + 1;
        }
        proof {
            assert forall|i: int, n: Seq<char>|
                0 <= i < self.people@.len() implies #[trigger] self.people@[i].weight_of(n)
                    == s0.people@[i].weight_of(n) + (if n != s0.people@[i].name@ && g.contains(
                    s0.people@[i].name@,
                ) && g.contains(n) {
                    1nat
                } else {
                    0nat
                }) by {
                if g.contains(s0.people@[i].name@) {
                    let t = choose|t: int| 0 <= t < g.len() && g[t] == s0.people@[i].name@;
                    assert(0 <= t < j && g[t] == s0.people@[i].name@);
                }
            }
        }
    }

    /// Where `name` stands or would stand in the roster, and whether it is
    /// already there.
    fn position_of(&self, name: &String) -> (r: (usize, bool))
        requires
            self.sorted(),
        ensures
            r.0 <= self.people@.len(),
            forall|t: int| 0 <= t < r.0 ==> name_lt(#[trigger] self.people@[t].name@, name@),
            r.1 ==> r.0 < self.people@.len() && self.people@[r.0 as int].name@ == name@,
            !r.1 ==> r.0 == self.people@.len() || name_lt(name@, self.people@[r.0 as int].name@),
    {
        let mut i: usize = 0;
        while i < self.people.len()
            invariant
                i <= self.people@.len(),
                forall|t: int| 0 <= t < i ==> name_lt(#[trigger] self.people@[t].name@, name@),
            decreases self.people@.len() - i,
        {
            match compare_names(self.people[i].name.as_str(), name.as_str()) {
                Ordering::Less => {
                    i = i + 1;
                },
                Ordering::Equal => {
                    return (i, true);
                },
                Ordering::Greater => {
                    return (i, false);
                },
            }
        }
        (i, false)
    }

    /// Adds a participant with no history yet; one already on the roster is
    /// left as is.
    pub fn add_person(&mut self, person: String)
        requires
            old(self).wf(),
        ensures
            final(self).wf(),
            final(self).dealer() == old(self).dealer(),
            final(self).names().to_set() == old(self).names().to_set().insert(person@),
            forall|n: Seq<char>|
                #[trigger] final(self).names().contains(n) <==> (old(self).names().contains(n) || n
                    == person@),
            final(self).names().len() == old(self).names().len() + (if old(self).names().contains(
                person@,
            ) {
                0int
            } else {
                1int
            }),
            forall|a: Seq<char>, b: Seq<char>|
                #[trigger] final(self).pair_count(a, b) == old(self).pair_count(a, b),
    {
        let (pos, found) = self.position_of(&person);
        if found {
            proof {
                assert(old(self).names()[pos as int] == person@);
                assert(old(self).names().to_set() =~= old(self).names().to_set().insert(person@));
            }
            return;
        }
        let ghost before = *self;
        let ghost olds = self.people@;
        proof {
            assert forall|t: int| 0 <= t < olds.len() implies #[trigger] olds[t].name@ != person@ by {
                lemma_name_lt_irreflexive(person@);
                if t < pos {
                } else if t == pos {
                    lemma_name_lt_asymmetric(person@, olds[t].name@);
                } else {
                    lemma_name_lt_transitive(person@, olds[pos as int].name@, olds[t].name@);
                    lemma_name_lt_irreflexive(person@);
                }
            }
            assert(!before.names().contains(person@));
        }
        let p = Person::new(person);
        self.people.insert(pos, p);
        proof {
            assert(self.people@ =~= olds.insert(pos as int, p));
            PersonSet::lemma_insert_sorted(before, *self, pos as int, p);
            PersonSet::lemma_insert_wf(before, *self, pos as int, p);
            PersonSet::lemma_insert_counts(before, *self, pos as int, p);
        }
    }

    proof fn lemma_insert_sorted(before: PersonSet, after: PersonSet, pos: int, p: Person)
        requires
            before.wf(),
            0 <= pos <= before.people@.len(),
            after.people@ == before.people@.insert(pos, p),
            forall|t: int| 0 <= t < pos ==> name_lt(#[trigger] before.people@[t].name@, p.name@),
            pos < before.people@.len() ==> name_lt(p.name@, before.people@[pos].name@),
        ensures
            forall|i: int, j: int|
                0 <= i < j < after.people@.len() ==> name_lt(
                    #[trigger] after.people@[i].name@,
                    #[trigger] after.people@[j].name@,
                ),
            after.names() == before.names().insert(pos, p.name@),
    {
        let olds = before.people@;
        let news = after.people@;
        assert(after.names() =~= before.names().insert(pos, p.name@));
        assert forall|i: int, j: int| 0 <= i < j < news.len() implies name_lt(
            #[trigger] news[i].name@,
            #[trigger] news[j].name@,
        ) by {
            if j < pos {
                assert(name_lt(olds[i].name@, olds[j].name@));
            } else if j == pos {
            } else if i < pos {
                assert(name_lt(olds[i].name@, olds[j - 1].name@));
            } else if i == pos {
                if j - 1 > pos {
                    assert(name_lt(olds[pos].name@, olds[j - 1].name@));
                    lemma_name_lt_transitive(p.name@, olds[pos].name@, olds[j - 1].name@);
                }
            } else {
                assert(name_lt(olds[i - 1].name@, olds[j - 1].name@));
            }
        }
    }

    proof fn lemma_insert_wf(before: PersonSet, after: PersonSet, pos: int, p: Person)
        requires
            before.wf(),
            0 <= pos <= before.people@.len(),
            after.people@ == before.people@.insert(pos, p),
            forall|i: int, j: int|
                0 <= i < j < after.people@.len() ==> name_lt(
                    #[trigger] after.people@[i].name@,
                    #[trigger] after.people@[j].name@,
                ),
            after.names() == before.names().insert(pos, p.name@),
            !before.names().contains(p.name@),
            p.wf(),
            forall|n: Seq<char>| p.weight_of(n) == 0,
        ensures
            after.wf(),
    {
        let olds = before.people@;
        let news = after.people@;
        let person = p.name@;
        assert forall|i: int, n: Seq<char>|
            0 <= i < news.len() && #[trigger] news[i].weight_of(n) > 0 implies after.names().contains(n) by {
            if i != pos {
                let k = if i < pos { i } else { i - 1 };
                assert(news[i] == olds[k]);
                assert(before.names().contains(n));
                let m = choose|m: int| 0 <= m < before.names().len() && before.names()[m] == n;
                let m2 = if m < pos { m } else { m + 1 };
                assert(after.names()[m2] == n);
            }
        }
        assert forall|i: int, j: int|
            0 <= i < news.len() && 0 <= j < news.len() implies (#[trigger] news[i]).weight_of(
            news[j].name@,
        ) == (#[trigger] news[j]).weight_of(news[i].name@) by {
            if i != pos && j != pos {
                let ki = if i < pos { i } else { i - 1 };
                let kj = if j < pos { j } else { j - 1 };
                assert(news[i] == olds[ki]);
                assert(news[j] == olds[kj]);
            } else if i != pos {
                let ki = if i < pos { i } else { i - 1 };
                assert(news[i] == olds[ki]);
                if olds[ki].weight_of(person) > 0 {
                    assert(before.names().contains(person));
                }
            } else if j != pos {
                let kj = if j < pos { j } else { j - 1 };
                assert(news[j] == olds[kj]);
                if olds[kj].weight_of(person) > 0 {
                    assert(before.names().contains(person));
                }
            }
        }
        assert forall|i: int| 0 <= i < news.len() implies (#[trigger] news[i]).wf() by {
            if i != pos {
                let k = if i < pos { i } else { i - 1 };
                assert(news[i] == olds[k]);
            }
        }
        assert forall|i: int| 0 <= i < news.len() implies #[trigger] news[i].weight_of(
            news[i].name@,
        ) == 0 by {
            if i != pos {
                let k = if i < pos { i } else { i - 1 };
                assert(news[i] == olds[k]);
            }
        }
    }

    proof fn lemma_insert_counts(before: PersonSet, after: PersonSet, pos: int, p: Person)
        requires
            before.wf(),
            after.wf(),
            0 <= pos <= before.people@.len(),
            after.people@ == before.people@.insert(pos, p),
            after.names() == before.names().insert(pos, p.name@),
            forall|n: Seq<char>| p.weight_of(n) == 0,
        ensures
            forall|a: Seq<char>, b: Seq<char>|
                #[trigger] after.pair_count(a, b) == before.pair_count(a, b),
            after.names().to_set() == before.names().to_set().insert(p.name@),
            forall|x: Seq<char>|
                #[trigger] after.names().contains(x) <==> (before.names().contains(x) || x == p.name@),
    {
        let olds = before.people@;
        let news = after.people@;
        assert forall|a: Seq<char>, b: Seq<char>|
            #[trigger] after.pair_count(a, b) == before.pair_count(a, b) by {
            if before.names().contains(a) {
                let m = choose|m: int| 0 <= m < before.names().len() && before.names()[m] == a;
                let m2 = if m < pos { m } else { m + 1 };
                assert(news[m2] == olds[m]);
                before.lemma_pair_count_at(m, b);
                after.lemma_pair_count_at(m2, b);
            } else if a == p.name@ {
                after.lemma_pair_count_at(pos, b);
            } else {
                assert(!after.names().contains(a));
            }
        }
        assert forall|x: Seq<char>| #[trigger] after.names().contains(x) <==> (before.names().contains(x) || x == p.name@) by {
                if after.names().contains(x) {
                    let m = choose|m: int| 0 <= m < after.names().len() && after.names()[m] == x;
                    if m < pos {
                        assert(before.names()[m] == x);
                    } else if m > pos {
                        assert(before.names()[m - 1] == x);
                    }
                }
                if before.names().contains(x) {
                    let m = choose|m: int| 0 <= m < before.names().len() && before.names()[m] == x;
                    let m2 = if m < pos { m } else { m + 1 };
                    assert(after.names()[m2] == x);
                }
                if x == p.name@ {
                    assert(after.names()[pos] == x);
                }
            }
        assert(after.names().to_set() =~= before.names().to_set().insert(p.name@));
    }
}

} // verus!
