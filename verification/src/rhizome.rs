//! Rhizome bridge: a two-layer map between causal event ids (of the
//! collaborative editing log) and e-class ids (of the e-graph).
//!
//! Every causal id maps to at most one e-class, and each e-class lists the
//! causal ids that map to it, in the order in which they joined it.

use std::collections::HashMap;

use vstd::prelude::*;

verus! {

/// Identifier of a causal event.
pub type CausalId = u64;

/// Identifier of an e-class.
pub type EClassId = u64;

/// Placeholder of the collaborative-editing session, which holds no state.
pub struct Rhizome;

impl Rhizome {
    pub fn new() -> (r: Rhizome) {
        Rhizome
    }
}

impl Default for Rhizome {
    fn default() -> (r: Rhizome) {
        Rhizome::new()
    }
}

/// Model of the bridge.
#[verifier::ext_equal]
pub struct SpecBridge {
    /// The e-class of each causal id that has one.
    pub eclass_of: Map<u64, u64>,
    /// The causal ids of each live e-class, in joining order.
    pub members: Map<u64, Seq<u64>>,
    /// The next e-class id to allocate.
    pub next: u64,
}

/// The causal ids of e-class `e`; none if it is not live.
pub open spec fn member_list(members: Map<u64, Seq<u64>>, e: u64) -> Seq<u64> {
    if members.contains_key(e) {
        members[e]
    } else {
        Seq::empty()
    }
}

/// `s` without the occurrences of `c`, in order.
pub open spec fn without(s: Seq<u64>, c: u64) -> Seq<u64>
    decreases s.len(),
{
    if s.len() == 0 {
        s
    } else if s.last() == c {
        without(s.drop_last(), c)
    } else {
        without(s.drop_last(), c).push(s.last())
    }
}

impl SpecBridge {
    /// The two layers agree: a causal id is listed by exactly the e-class it
    /// maps to, and no list repeats an id.
    pub open spec fn wf(self) -> bool {
        &&& self.eclass_of.dom().finite()
        &&& self.members.dom().finite()
        &&& forall|c: u64| #[trigger]
            self.eclass_of.contains_key(c) ==> self.members.contains_key(self.eclass_of[c])
                && self.members[self.eclass_of[c]].contains(c)
        &&& forall|e: u64, x: u64|
            #![trigger self.members[e].contains(x)]
            self.members.contains_key(e) && self.members[e].contains(x) ==> self.eclass_of.contains_key(
                x,
            ) && self.eclass_of[x] == e
        &&& forall|e: u64| #[trigger]
            self.members.contains_key(e) ==> self.members[e].no_duplicates()
    }

    /// The empty bridge.
    pub open spec fn empty() -> SpecBridge {
        SpecBridge { eclass_of: Map::empty(), members: Map::empty(), next: 0 }
    }

    /// The bridge after allocating e-class `self.next`.
    pub open spec fn allocate(self) -> SpecBridge {
        SpecBridge {
            next: (self.next + 1) as u64,
            members: if self.members.contains_key(self.next) {
                self.members
            } else {
                self.members.insert(self.next, Seq::empty())
            },
            ..self
        }
    }

    /// The bridge after moving causal id `c` into e-class `e`.
    pub open spec fn insert(self, c: u64, e: u64) -> SpecBridge {
        if self.eclass_of.contains_key(c) && self.eclass_of[c] == e {
            self
        } else {
            let m1 = if self.eclass_of.contains_key(c) && self.members.contains_key(
                self.eclass_of[c],
            ) {
                self.members.insert(
                    self.eclass_of[c],
                    without(self.members[self.eclass_of[c]], c),
                )
            } else {
                self.members
            };
            SpecBridge {
                eclass_of: self.eclass_of.insert(c, e),
                members: m1.insert(e, member_list(m1, e).push(c)),
                next: self.next,
            }
        }
    }

    /// The bridge after merging e-class `b` into e-class `a`: the ids of `b`
    /// join `a` after its own, and `b` is no longer live.
    pub open spec fn merge(self, a: u64, b: u64) -> SpecBridge {
        if a == b || !self.members.contains_key(b) {
            self
        } else {
            SpecBridge {
                eclass_of: self.eclass_of.map_values(
                    |x: u64|
                        if x == b {
                            a
                        } else {
                            x
                        },
                ),
                members: self.members.remove(b).insert(a, member_list(self.members, a) + self.members[b]),
                next: self.next,
            }
        }
    }
}

/// The bridge between causal ids and e-class ids.
pub struct RhizomeBridge {
    eclass: HashMap<u64, u64>,
    members: HashMap<u64, Vec<u64>>,
    next_eclass: u64,
}

impl View for RhizomeBridge {
    type V = SpecBridge;

    closed spec fn view(&self) -> SpecBridge {
        SpecBridge {
            eclass_of: self.eclass@,
            members: self.members@.map_values(|v: Vec<u64>| v@),
            next: self.next_eclass,
        }
    }
}

proof fn lemma_without(s: Seq<u64>, c: u64)
    ensures
        forall|x: u64| #[trigger] without(s, c).contains(x) <==> (s.contains(x) && x != c),
        s.no_duplicates() ==> without(s, c).no_duplicates(),
    decreases s.len(),
{
    if s.len() > 0 {
        let d = s.drop_last();
        let w = without(d, c);
        let l = s.last();
        lemma_without(d, c);
        assert(s =~= d.push(l));
        assert forall|x: u64| #[trigger] s.contains(x) <==> (d.contains(x) || x == l) by {
            if s.contains(x) {
                let k = choose|k: int| 0 <= k < s.len() && s[k] == x;
                if k < d.len() {
                    assert(d[k] == x);
                }
            }
            if d.contains(x) {
                let k = choose|k: int| 0 <= k < d.len() && d[k] == x;
                assert(s[k] == x);
            }
            if x == l {
                assert(s[s.len() - 1] == x);
            }
        }
        if l != c {
            assert forall|x: u64| #[trigger] w.push(l).contains(x) <==> (w.contains(x) || x == l) by {
                if w.push(l).contains(x) {
                    let k = choose|k: int| 0 <= k < w.push(l).len() && w.push(l)[k] == x;
                    if k < w.len() {
                        assert(w[k] == x);
                    }
                }
                if w.contains(x) {
                    let k = choose|k: int| 0 <= k < w.len() && w[k] == x;
                    assert(w.push(l)[k] == x);
                }
                if x == l {
                    assert(w.push(l)[w.len() as int] == x);
                }
            }
        }
        if s.no_duplicates() {
            assert(d.no_duplicates()) by {
                assert forall|i: int, j: int|
                    0 <= i < d.len() && 0 <= j < d.len() && i != j implies d[i] != d[j] by {
                    assert(s[i] != s[j]);
                }
            }
            if l != c {
                assert(!d.contains(l)) by {
                    if d.contains(l) {
                        let j = choose|j: int| 0 <= j < d.len() && d[j] == l;
                        assert(s[j] == s[s.len() - 1]);
                    }
                }
                assert(!w.contains(l));
                assert forall|i: int, j: int|
                    0 <= i < w.push(l).len() && 0 <= j < w.push(l).len() && i != j implies w.push(l)[i]
                    != w.push(l)[j] by {
                    if i < w.len() && j < w.len() {
                    } else if i < w.len() {
                        assert(w.contains(w[i]));
                    } else {
                        assert(w.contains(w[j]));
                    }
                }
            }
        }
    }
}


proof fn lemma_push_contains(s: Seq<u64>, l: u64)
    ensures
        forall|x: u64| #[trigger] s.push(l).contains(x) <==> (s.contains(x) || x == l),
{
    assert forall|x: u64| #[trigger] s.push(l).contains(x) <==> (s.contains(x) || x == l) by {
        if s.push(l).contains(x) {
            let k = choose|k: int| 0 <= k < s.push(l).len() && s.push(l)[k] == x;
            if k < s.len() {
                assert(s[k] == x);
            }
        }
        if s.contains(x) {
            let k = choose|k: int| 0 <= k < s.len() && s[k] == x;
            assert(s.push(l)[k] == x);
        }
        if x == l {
            assert(s.push(l)[s.len() as int] == x);
        }
    }
}

proof fn lemma_concat_contains(s: Seq<u64>, t: Seq<u64>)
    ensures
        forall|x: u64| #[trigger] (s + t).contains(x) <==> (s.contains(x) || t.contains(x)),
{
    assert forall|x: u64| #[trigger] (s + t).contains(x) <==> (s.contains(x) || t.contains(x)) by {
        if (s + t).contains(x) {
            let k = choose|k: int| 0 <= k < (s + t).len() && (s + t)[k] == x;
            if k < s.len() {
                assert(s[k] == x);
            } else {
                assert(t[k - s.len()] == x);
            }
        }
        if s.contains(x) {
            let k = choose|k: int| 0 <= k < s.len() && s[k] == x;
            assert((s + t)[k] == x);
        }
        if t.contains(x) {
            let k = choose|k: int| 0 <= k < t.len() && t[k] == x;
            assert((s + t)[s.len() + k] == x);
        }
    }
}

/// Allocating keeps the two layers in agreement.
pub proof fn lemma_allocate_wf(s: SpecBridge)
    requires
        s.wf(),
    ensures
        s.allocate().wf(),
{
    let t = s.allocate();
    assert forall|e: u64, x: u64|
        #![trigger t.members[e].contains(x)]
        t.members.contains_key(e) && t.members[e].contains(x) implies t.eclass_of.contains_key(x)
        && t.eclass_of[x] == e by {
        if !s.members.contains_key(e) {
            assert(t.members[e] =~= Seq::<u64>::empty());
        } else {
            assert(s.members[e].contains(x));
        }
    }
    assert forall|e: u64| #[trigger] t.members.contains_key(e) implies t.members[e].no_duplicates() by {
        if s.members.contains_key(e) {
            assert(s.members[e].no_duplicates());
        }
    }
}

/// Moving a causal id keeps the two layers in agreement.
pub proof fn lemma_insert_wf(s: SpecBridge, c: u64, e: u64)
    requires
        s.wf(),
    ensures
        s.insert(c, e).wf(),
{
    if !(s.eclass_of.contains_key(c) && s.eclass_of[c] == e) {
        let t = s.insert(c, e);
        let had = s.eclass_of.contains_key(c);
        let p = s.eclass_of[c];
        let m1 = if had && s.members.contains_key(p) {
            s.members.insert(p, without(s.members[p], c))
        } else {
            s.members
        };
        let le = member_list(m1, e);
        if had {
            lemma_without(s.members[p], c);
        }
        lemma_push_contains(le, c);
        assert(!le.contains(c)) by {
            if le.contains(c) {
                if had && p == e {
                } else {
                    assert(m1.contains_key(e));
                    assert(m1[e] == s.members[e]);
                    assert(s.members[e].contains(c));
                }
            }
        }
        assert forall|x: u64| #[trigger] t.eclass_of.contains_key(x) implies t.members.contains_key(
            t.eclass_of[x],
        ) && t.members[t.eclass_of[x]].contains(x) by {
            if x != c {
                let q = s.eclass_of[x];
                assert(s.members.contains_key(q) && s.members[q].contains(x));
                if q == e {
                    assert(le.contains(x));
                } else if had && q == p {
                    assert(without(s.members[p], c).contains(x));
                }
            }
        }
        assert forall|e2: u64, x: u64|
            #![trigger t.members[e2].contains(x)]
            t.members.contains_key(e2) && t.members[e2].contains(x) implies t.eclass_of.contains_key(x)
            && t.eclass_of[x] == e2 by {
            if e2 == e {
                if x != c {
                    assert(le.contains(x));
                    assert(m1.contains_key(e));
                    assert(s.members.contains_key(e) && s.members[e].contains(x));
                }
            } else if had && e2 == p && s.members.contains_key(p) {
                assert(without(s.members[p], c).contains(x));
                assert(s.members[p].contains(x));
            } else {
                assert(s.members[e2].contains(x));
                assert(x != c) by {
                    if x == c {
                        assert(s.eclass_of[c] == e2);
                    }
                }
            }
        }
        assert forall|e2: u64| #[trigger] t.members.contains_key(e2) implies t.members[e2].no_duplicates() by {
            if e2 == e {
                if m1.contains_key(e) {
                    if had && p == e {
                    } else {
                        assert(s.members[e].no_duplicates());
                    }
                    assert(le.no_duplicates());
                }
                assert forall|i: int, j: int|
                    0 <= i < le.push(c).len() && 0 <= j < le.push(c).len() && i != j implies le.push(c)[i]
                    != le.push(c)[j] by {
                    if i < le.len() && j < le.len() {
                    } else if i < le.len() {
                        assert(le.contains(le[i]));
                    } else {
                        assert(le.contains(le[j]));
                    }
                }
            } else if had && e2 == p && s.members.contains_key(p) {
                assert(s.members[p].no_duplicates());
            } else {
                assert(s.members[e2].no_duplicates());
            }
        }
    }
}

/// Merging keeps the two layers in agreement.
pub proof fn lemma_merge_wf(s: SpecBridge, a: u64, b: u64)
    requires
        s.wf(),
    ensures
        s.merge(a, b).wf(),
{
    if a != b && s.members.contains_key(b) {
        let t = s.merge(a, b);
        let la = member_list(s.members, a);
        let lb = s.members[b];
        lemma_concat_contains(la, lb);
        assert(t.eclass_of.dom() =~= s.eclass_of.dom());
        assert forall|x: u64| #[trigger] t.eclass_of.contains_key(x) implies t.members.contains_key(
            t.eclass_of[x],
        ) && t.members[t.eclass_of[x]].contains(x) by {
            let q = s.eclass_of[x];
            assert(s.members.contains_key(q) && s.members[q].contains(x));
            if q == b {
                assert(lb.contains(x));
            } else if q == a {
                assert(la.contains(x));
            }
        }
        assert forall|e2: u64, x: u64|
            #![trigger t.members[e2].contains(x)]
            t.members.contains_key(e2) && t.members[e2].contains(x) implies t.eclass_of.contains_key(x)
            && t.eclass_of[x] == e2 by {
            if e2 == a {
                if la.contains(x) {
                    assert(s.members[a].contains(x));
                } else {
                    assert(lb.contains(x));
                    assert(s.members[b].contains(x));
                }
            } else {
                assert(s.members[e2].contains(x));
            }
        }
        assert forall|e2: u64| #[trigger] t.members.contains_key(e2) implies t.members[e2].no_duplicates() by {
            if e2 == a {
                assert(lb.no_duplicates());
                if s.members.contains_key(a) {
                    assert(s.members[a].no_duplicates());
                }
                assert(la.no_duplicates());
                assert forall|i: int, j: int|
                    0 <= i < (la + lb).len() && 0 <= j < (la + lb).len() && i != j implies (la + lb)[i]
                    != (la + lb)[j] by {
                    if i < la.len() && j >= la.len() {
                        let x = la[i];
                        assert(la.contains(x));
                        assert(lb[j - la.len()] == (la + lb)[j]);
                        if x == (la + lb)[j] {
                            assert(lb.contains(x));
                            assert(s.members[a].contains(x));
                            assert(s.members[b].contains(x));
                        }
                    } else if j < la.len() && i >= la.len() {
                        let x = la[j];
                        assert(la.contains(x));
                        assert(lb[i - la.len()] == (la + lb)[i]);
                        if x == (la + lb)[i] {
                            assert(lb.contains(x));
                            assert(s.members[a].contains(x));
                            assert(s.members[b].contains(x));
                        }
                    } else if i >= la.len() {
                        assert(lb[i - la.len()] != lb[j - la.len()]);
                    }
                }
            } else {
                assert(s.members[e2].no_duplicates());
            }
        }
    }
}

impl RhizomeBridge {
    /// An empty bridge.
    pub fn new() -> (b: RhizomeBridge)
        ensures
            b@ == SpecBridge::empty(),
            b@.wf(),
    {
        let b = RhizomeBridge { eclass: HashMap::new(), members: HashMap::new(), next_eclass: 0 };
        assert(b@.members =~= Map::<u64, Seq<u64>>::empty());
        b
    }

    /// Allocates a fresh e-class id: the ids it returns increase by one
    /// from zero.
    pub fn alloc_eclass(&mut self) -> (id: u64)
        requires
            old(self)@.wf(),
            old(self)@.next < u64::MAX,
        ensures
            id == old(self)@.next,
            final(self)@ == old(self)@.allocate(),
            final(self)@.wf(),
    {
        let id = self.next_eclass;
        self.next_eclass = id + 1;
        if !self.members.contains_key(&id) {
            self.members.insert(id, Vec::new());
        }
        assert(self@.members =~= old(self)@.allocate().members);
        proof {
            lemma_allocate_wf(old(self)@);
        }
        id
    }

    /// The e-class of a causal id.
    pub fn eclass_of(&self, causal: u64) -> (r: Option<u64>)
        ensures
            r == self@.eclass_of.get(causal),
    {
        match self.eclass.get(&causal) {
            Some(e) => Some(*e),
            None => None,
        }
    }

    /// The causal ids of an e-class, in joining order.
    pub fn causal_events_of(&self, eclass: u64) -> (r: &[u64])
        ensures
            r@ == member_list(self@.members, eclass),
    {
        match self.members.get(&eclass) {
            Some(v) => v.as_slice(),
            None => &[],
        }
    }

    /// Removes `c` from the list of e-class `e`, if `e` is live.
    fn remove_member(&mut self, e: u64, c: u64)
        ensures
            final(self)@.eclass_of == old(self)@.eclass_of,
            final(self)@.next == old(self)@.next,
            final(self)@.members == (if old(self)@.members.contains_key(e) {
                old(self)@.members.insert(e, without(old(self)@.members[e], c))
            } else {
                old(self)@.members
            }),
    {
        match self.members.remove(&e) {
            None => {
                assert(self@.members =~= old(self)@.members);
            },
            Some(v) => {
                let mut out: Vec<u64> = Vec::new();
                let mut i: usize = 0;
                assert(v@.take(0) =~= Seq::<u64>::empty());
                while i < v.len()
                    invariant
                        i <= v@.len(),
                        out@ == without(v@.take(i as int), c),
                    decreases v@.len() - i,
                {
                    assert(v@.take(i + 1).drop_last() =~= v@.take(i as int));
                    if v[i] != c {
                        out.push(v[i]);
                    }
                    i = i + 1;
                }
                assert(v@.take(v@.len() as int) =~= v@);
                self.members.insert(e, out);
                assert(self@.members =~= old(self)@.members.insert(e, without(old(self)@.members[e], c)));
            },
        }
    }

    /// Appends `c` to the list of e-class `e`, making `e` live.
    fn push_member(&mut self, e: u64, c: u64)
        ensures
            final(self)@.eclass_of == old(self)@.eclass_of,
            final(self)@.next == old(self)@.next,
            final(self)@.members == old(self)@.members.insert(
                e,
                member_list(old(self)@.members, e).push(c),
            ),
    {
        let mut v = match self.members.remove(&e) {
            Some(v) => v,
            None => Vec::new(),
        };
        v.push(c);
        self.members.insert(e, v);
        assert(self@.members =~= old(self)@.members.insert(e, member_list(old(self)@.members, e).push(c)));
    }

    /// Moves a causal id into an e-class: it leaves the e-class it was in
    /// and joins the end of the list of `eclass`.
    pub fn insert(&mut self, causal: u64, eclass: u64)
        requires
            old(self)@.wf(),
        ensures
            final(self)@ == old(self)@.insert(causal, eclass),
            final(self)@.wf(),
    {
        let prev = self.eclass_of(causal);
        match prev {
            Some(p) => {
                if p == eclass {
                    return ;
                }
                self.remove_member(p, causal);
            },
            None => {},
        }
        self.eclass.insert(causal, eclass);
        self.push_member(eclass, causal);
        proof {
            lemma_insert_wf(old(self)@, causal, eclass);
        }
        assert(self@ =~= old(self)@.insert(causal, eclass));
    }

    /// Merges e-class `b` into e-class `a`: the causal ids of `b` move to
    /// `a`, after those of `a`, and `b` is no longer live. Nothing changes
    /// when `a == b` or `b` is not live.
    pub fn merge_classes(&mut self, a: u64, b: u64)
        requires
            old(self)@.wf(),
        ensures
            final(self)@ == old(self)@.merge(a, b),
            final(self)@.wf(),
    {
        proof {
            lemma_merge_wf(old(self)@, a, b);
        }
        if a == b {
            return ;
        }
        let ghost s = self@;
        match self.members.remove(&b) {
            None => {
                assert(self@ =~= old(self)@);
            },
            Some(lb) => {
                let mut la = match self.members.remove(&a) {
                    Some(v) => v,
                    None => Vec::new(),
                };
                let ghost la0 = la@;
                assert(la0 == member_list(s.members, a));
                let ghost mm = self.members@;
                assert(mm.map_values(|v: Vec<u64>| v@) =~= s.members.remove(b).remove(a));
                let mut i: usize = 0;
                while i < lb.len()
                    invariant
                        i <= lb@.len(),
                        s.wf(),
                        a != b,
                        s.members.contains_key(b),
                        self.members@ == mm,
                        self.next_eclass == s.next,
                        lb@ == s.members[b],
                        la@ == la0 + lb@.take(i as int),
                        self.eclass@.dom() == s.eclass_of.dom(),
                        forall|x: u64| #[trigger]
                            self.eclass@.contains_key(x) ==> self.eclass@[x] == (if lb@.take(
                                i as int,
                            ).contains(x) {
                                a
                            } else {
                                s.eclass_of[x]
                            }),
                    decreases lb@.len() - i,
                {
                    let x = lb[i];
                    assert(s.members[b].contains(x));
                    proof {
                        lemma_push_contains(lb@.take(i as int), x);
                        assert(lb@.take(i + 1) =~= lb@.take(i as int).push(x));
                    }
                    self.eclass.insert(x, a);
                    la.push(x);
                    assert(la@ =~= la0 + lb@.take(i + 1));
                    assert(self.eclass@.dom() =~= s.eclass_of.dom());
                    i = i + 1;
                }
                assert(lb@.take(lb@.len() as int) =~= lb@);
                self.members.insert(a, la);
                let ghost t = s.merge(a, b);
                assert forall|x: u64| #[trigger] self.eclass@.contains_key(x) implies self.eclass@[x]
                    == t.eclass_of[x] by {
                    if s.eclass_of[x] == b {
                        assert(s.members[s.eclass_of[x]].contains(x));
                    } else if lb@.contains(x) {
                        assert(s.members[b].contains(x));
                    }
                }
                assert(self.eclass@ =~= t.eclass_of);
                assert(self@.members =~= t.members);
                assert(self@ =~= t);
            },
        }
    }

    /// The number of live e-classes.
    pub fn class_count(&self) -> (n: usize)
        ensures
            n == self@.members.len(),
    {
        assert(self@.members.dom() =~= self.members@.dom());
        self.members.len()
    }
}

} // verus!
