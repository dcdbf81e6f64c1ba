//! The subset construction: from a non-deterministic automaton to a
//! deterministic one whose states stand for sets of states.

use std::collections::{HashMap, HashSet};
use std::hash::Hash;
use vstd::prelude::*;
use vstd::std_specs::hash::obeys_key_model;

use crate::bits::{
    bit, has_bit, key_meets, key_of_set, lemma_members_injective, lemma_members_zero,
    lemma_nonzero_has_bit, members, with_bit,
};
use crate::dfa::{dfa_model_of, one_state, push_dfa_state, set_trans, trans_of, ToDfa, DFA};
use crate::laws::{accepts_like, law_determinize_accepts_like};
use crate::model::{
    breadth_first, determinizes, entered_by, entered_from_below, inhabited, meet,
    subset_automaton, DfaModel, NfaModel,
};
use crate::nfa::NFA;
use crate::table::{table_edges, table_has};
use crate::utils::{copy_set, ints, set_items};

verus! {

broadcast use vstd::std_specs::hash::group_hash_axioms;

/// The set that `k` stands for holds a final state of `m`.
pub open spec fn key_final<V>(m: NfaModel<V>, k: u128) -> bool {
    exists|q: int| bit(k, q) && m.finals.contains(q)
}

/// The sets that a list of words stands for.
pub open spec fn key_sets(keys: Seq<u128>) -> Seq<Set<int>> {
    Seq::new(keys.len(), |i: int| members(keys[i]))
}

/// What holds of the part of the subset automaton that has been built: `keys`
/// lists the sets found so far, `index` finds a set's number, `finals` and
/// `trans` are the final states and transitions entered so far.
pub open spec fn det_inv<V>(
    m: NfaModel<V>,
    keys: Seq<u128>,
    index: Map<u128, usize>,
    finals: Set<usize>,
    trans: Map<(int, V), int>,
) -> bool {
    &&& keys.len() > 0
    &&& members(keys[0]) == m.initials
    &&& forall|j: int|
        0 <= j < keys.len() ==> index.contains_key(#[trigger] keys[j]) && index[keys[j]] == j
    &&& forall|k: u128| #[trigger]
        index.contains_key(k) ==> index[k] < keys.len() && keys[index[k] as int] == k
    &&& forall|j: int| 0 < j < keys.len() ==> #[trigger] keys[j] != 0
    &&& forall|j: int, q: int| 0 <= j < keys.len() && #[trigger] bit(keys[j], q) ==> q < m.size
    &&& forall|j: int|
        0 <= j < keys.len() ==> (finals.contains(j as usize) <==> key_final(m, #[trigger] keys[j]))
    &&& forall|x: usize| finals.contains(x) ==> x < keys.len()
    &&& forall|j: int, v: V| #[trigger]
        trans.contains_key((j, v)) ==> 0 <= j < keys.len() && m.alphabet.contains(v) && 0 <= trans[(
            j,
            v,
        )] < keys.len() && members(keys[trans[(j, v)]]) == m.step(members(keys[j]), v)
    &&& forall|j: int| 0 < j < keys.len() ==> #[trigger] entered_from_below(trans, j)
}

/// A transition to a set that was found before keeps what holds of the part
/// built so far.
proof fn lemma_det_old_target<V>(
    m: NfaModel<V>,
    keys: Seq<u128>,
    index: Map<u128, usize>,
    finals: Set<usize>,
    trans: Map<(int, V), int>,
    i: int,
    v: V,
    succ: u128,
)
    requires
        det_inv(m, keys, index, finals, trans),
        0 <= i < keys.len(),
        m.alphabet.contains(v),
        !trans.contains_key((i, v)),
        index.contains_key(succ),
        members(succ) == m.step(members(keys[i]), v),
    ensures
        det_inv(m, keys, index, finals, trans.insert((i, v), index[succ] as int)),
{
    let t2 = trans.insert((i, v), index[succ] as int);
    assert forall|j: int| 0 < j < keys.len() implies #[trigger] entered_from_below(t2, j) by {
        assert(entered_from_below(trans, j));
        let (a, b) = choose|a: int, b: V|
            0 <= a < j && #[trigger] trans.contains_key((a, b)) && trans[(a, b)] == j;
        assert(t2.contains_key((a, b)) && t2[(a, b)] == j);
    }
    assert forall|j: int, w: V| #[trigger] t2.contains_key((j, w)) implies 0 <= j < keys.len()
        && m.alphabet.contains(w) && 0 <= t2[(j, w)] < keys.len() && members(keys[t2[(j, w)]])
        == m.step(members(keys[j]), w) by {
        if (j, w) != (i, v) {
            assert(trans.contains_key((j, w)));
        }
    }
}

/// A transition to a set that is new keeps what holds of the part built so
/// far, once the set has got the next number.
proof fn lemma_det_new_target<V>(
    m: NfaModel<V>,
    keys: Seq<u128>,
    index: Map<u128, usize>,
    finals: Set<usize>,
    trans: Map<(int, V), int>,
    i: int,
    v: V,
    succ: u128,
    finals2: Set<usize>,
)
    requires
        m.wf(),
        det_inv(m, keys, index, finals, trans),
        0 <= i < keys.len(),
        keys.len() < usize::MAX,
        m.alphabet.contains(v),
        !trans.contains_key((i, v)),
        !index.contains_key(succ),
        succ != 0,
        members(succ) == m.step(members(keys[i]), v),
        finals2 == if key_final(m, succ) {
            finals.insert(keys.len() as usize)
        } else {
            finals
        },
    ensures
        det_inv(
            m,
            keys.push(succ),
            index.insert(succ, keys.len() as usize),
            finals2,
            trans.insert((i, v), keys.len() as int),
        ),
{
    let l = keys.len() as int;
    let keys2 = keys.push(succ);
    let index2 = index.insert(succ, l as usize);
    let t2 = trans.insert((i, v), l);
    assert forall|j: int| 0 <= j < keys2.len() implies index2.contains_key(#[trigger] keys2[j])
        && index2[keys2[j]] == j by {
        if j < l {
            assert(index.contains_key(keys[j]));
        }
    }
    assert forall|k: u128| #[trigger] index2.contains_key(k) implies index2[k] < keys2.len()
        && keys2[index2[k] as int] == k by {
        if k != succ {
            assert(index.contains_key(k));
        }
    }
    assert forall|j: int, q: int| 0 <= j < keys2.len() && #[trigger] bit(keys2[j], q) implies q
        < m.size by {
        if j < l {
            assert(bit(keys[j], q));
        } else {
            assert(members(succ).contains(q));
            let p = choose|p: int|
                members(keys[i]).contains(p) && #[trigger] m.edges.contains((p, v, q));
        }
    }
    assert forall|j: int| 0 <= j < keys2.len() implies (finals2.contains(j as usize) <==> key_final(
        m,
        #[trigger] keys2[j],
    )) by {
        if j < l {
            assert(finals.contains(j as usize) <==> key_final(m, keys[j]));
        }
    }
    assert forall|j: int| 0 < j < keys2.len() implies #[trigger] entered_from_below(t2, j) by {
        if j < l {
            assert(entered_from_below(trans, j));
            let (a, b) = choose|a: int, b: V|
                0 <= a < j && #[trigger] trans.contains_key((a, b)) && trans[(a, b)] == j;
            assert(t2.contains_key((a, b)) && t2[(a, b)] == j);
        } else {
            assert(t2.contains_key((i, v)) && t2[(i, v)] == j);
        }
    }
    assert forall|j: int, w: V| #[trigger] t2.contains_key((j, w)) implies 0 <= j < keys2.len()
        && m.alphabet.contains(w) && 0 <= t2[(j, w)] < keys2.len() && members(keys2[t2[(j, w)]])
        == m.step(members(keys2[j]), w) by {
        if (j, w) != (i, v) {
            assert(trans.contains_key((j, w)));
            assert(keys2[trans[(j, w)]] == keys[trans[(j, w)]]);
        }
    }
    assert forall|j: int| 0 < j < keys2.len() implies #[trigger] keys2[j] != 0 by {
        if j < l {
            assert(keys[j] != 0);
        }
    }
}

/// A new transition from the state that is being worked on keeps the
/// numbering breadth first.
proof fn lemma_bfs_step<V>(trans: Map<(int, V), int>, i: int, v: V, target: int, len: int)
    requires
        0 <= i,
        0 <= target <= len,
        !trans.contains_key((i, v)),
        forall|j: int| 0 < j < len ==> #[trigger] entered_by(trans, j, i),
        breadth_first(trans),
    ensures
        forall|j: int| 0 < j < len ==> #[trigger] entered_by(trans.insert((i, v), target), j, i),
        target > 0 ==> entered_by(trans.insert((i, v), target), target, i),
        breadth_first(trans.insert((i, v), target)),
{
    let t2 = trans.insert((i, v), target);
    assert forall|j: int, bound: int| #[trigger] entered_by(trans, j, bound) implies entered_by(
        t2,
        j,
        bound,
    ) by {
        let (k, u) = choose|k: int, u: V|
            0 <= k <= bound && #[trigger] trans.contains_key((k, u)) && trans[(k, u)] == j;
        assert(t2.contains_key((k, u)) && t2[(k, u)] == j);
    }
    if target > 0 {
        assert(t2.contains_key((i, v)) && t2[(i, v)] == target);
    }
    assert forall|j: int| 0 < j < len implies #[trigger] entered_by(t2, j, i) by {
        assert(entered_by(trans, j, i));
    }
    assert forall|a: int, u: V, j: int|
        #![trigger t2.contains_key((a, u)), entered_by(t2, j, a)]
        t2.contains_key((a, u)) && 0 < j < t2[(a, u)] implies entered_by(t2, j, a) by {
        if (a, u) == (i, v) {
            assert(entered_by(trans, j, i));
        } else {
            assert(trans.contains_key((a, u)));
            assert(entered_by(trans, j, a));
        }
    }
}

/// What was entered from a state or a state before it was entered from any
/// later state or a state before that.
proof fn lemma_entered_later<V>(trans: Map<(int, V), int>, j: int, i: int, later: int)
    requires
        entered_by(trans, j, i),
        i <= later,
    ensures
        entered_by(trans, j, later),
{
    let (k, u) = choose|k: int, u: V|
        0 <= k <= i && #[trigger] trans.contains_key((k, u)) && trans[(k, u)] == j;
    assert(0 <= k <= later && trans.contains_key((k, u)) && trans[(k, u)] == j);
}

/// Once every set that was found has its transitions, the automaton built is
/// the subset automaton.
proof fn lemma_det_done<V>(
    m: NfaModel<V>,
    keys: Seq<u128>,
    index: Map<u128, usize>,
    finals: Set<usize>,
    trans: Map<(int, V), int>,
    d: DfaModel<V>,
)
    requires
        det_inv(m, keys, index, finals, trans),
        forall|j: int, v: V|
            0 <= j < keys.len() && m.alphabet.contains(v) && !(#[trigger] trans.contains_key((j, v)))
                ==> m.step(members(keys[j]), v) == Set::<int>::empty(),
        breadth_first(trans),
        d.alphabet == m.alphabet,
        d.size == keys.len(),
        d.initial == 0,
        d.finals == ints(finals),
        d.trans == trans,
    ensures
        subset_automaton(m, d, key_sets(keys)),
        d.wf(),
{
    let subsets = key_sets(keys);
    assert forall|i: int, j: int|
        0 <= i < subsets.len() && 0 <= j < subsets.len() && i != j implies subsets[i]
        != subsets[j] by {
        if subsets[i] == subsets[j] {
            lemma_members_injective(keys[i], keys[j]);
            assert(index[keys[i]] == i && index[keys[j]] == j);
        }
    }
    assert forall|i: int| 0 < i < subsets.len() implies inhabited(#[trigger] subsets[i]) by {
        assert(keys[i] != 0);
        lemma_nonzero_has_bit(keys[i]);
        let q = choose|q: int| bit(keys[i], q);
        assert(subsets[i].contains(q));
    }
    assert forall|i: int| 0 <= i < subsets.len() implies (d.finals.contains(i) <==> meet(
        #[trigger] subsets[i],
        m.finals,
    )) by {
        assert(finals.contains(i as usize) <==> key_final(m, keys[i]));
        if key_final(m, keys[i]) {
            let q = choose|q: int| bit(keys[i], q) && m.finals.contains(q);
            assert(subsets[i].contains(q) && m.finals.contains(q));
        }
        if meet(subsets[i], m.finals) {
            let q = choose|q: int| subsets[i].contains(q) && m.finals.contains(q);
            assert(bit(keys[i], q));
        }
    }
    assert forall|i: int, v: V| #[trigger] d.trans.contains_key((i, v)) implies 0 <= i
        < subsets.len() && m.alphabet.contains(v) && 0 <= d.trans[(i, v)] < subsets.len()
        && subsets[d.trans[(i, v)]] == m.step(subsets[i], v) by {}
    assert forall|i: int, v: V|
        0 <= i < subsets.len() && m.alphabet.contains(v) && !(#[trigger] d.trans.contains_key(
            (i, v),
        )) implies m.step(subsets[i], v) =~= Set::<int>::empty() by {}
}

/// The word for the set of states that an edge labelled `v` reaches from the
/// set of `key`.
fn successors<V: Eq + Hash + Copy>(t: &Vec<HashMap<V, Vec<usize>>>, key: u128, v: &V) -> (r: u128)
    requires
        obeys_key_model::<V>(),
        t@.len() <= 128,
        forall|e: (int, V, int)| #[trigger] table_edges(t@).contains(e) ==> 0 <= e.2 < t@.len(),
    ensures
        forall|q: int|
            bit(r, q) <==> exists|p: int| bit(key, p) && #[trigger] table_edges(t@).contains((p, *v, q)),
{
    let mut acc: u128 = 0;
    let mut p: usize = 0;
    proof {
        lemma_members_zero(0u128);
        assert forall|q: int| !bit(0u128, q) by {
            assert(members(0u128).contains(q) == bit(0u128, q));
        }
    }
    while p < t.len()
        invariant
            obeys_key_model::<V>(),
            p <= t@.len() <= 128,
            forall|e: (int, V, int)| #[trigger] table_edges(t@).contains(e) ==> 0 <= e.2 < t@.len(),
            forall|q: int|
                bit(acc, q) <==> exists|origin: int|
                    origin < p && bit(key, origin) && #[trigger] table_edges(t@).contains((origin, *v, q)),
        decreases t@.len() - p,
    {
        if has_bit(key, p) {
            match t[p].get(v) {
                None => {
                    proof {
                        assert forall|q: int|
                            bit(acc, q) <==> exists|origin: int|
                                origin < p + 1 && bit(key, origin) && #[trigger] table_edges(t@).contains(
                                    (origin, *v, q),
                                ) by {
                            assert(!table_edges(t@).contains((p as int, *v, q)));
                        }
                    }
                },
                Some(ts) => {
                    let ghost outer = acc;
                    let mut j: usize = 0;
                    proof {
                        assert forall|jj: int| 0 <= jj < ts@.len() implies #[trigger] ts@[jj]
                            < 128 by {
                            assert(ts@[jj] as int == ts@[jj] as int);
                            assert(table_has(t@, p as int, *v, ts@[jj] as int));
                            assert(table_edges(t@).contains((p as int, *v, ts@[jj] as int)));
                        }
                    }
                    while j < ts.len()
                        invariant
                            j <= ts@.len(),
                            forall|jj: int| 0 <= jj < ts@.len() ==> #[trigger] ts@[jj] < 128,
                            forall|q: int|
                                bit(acc, q) <==> bit(outer, q) || exists|jj: int|
                                    0 <= jj < j && #[trigger] ts@[jj] as int == q,
                        decreases ts@.len() - j,
                    {
                        acc = with_bit(acc, ts[j]);
                        j += 1;
                    }
                    proof {
                        assert forall|q: int|
                            bit(acc, q) <==> exists|origin: int|
                                origin < p + 1 && bit(key, origin) && #[trigger] table_edges(t@).contains(
                                    (origin, *v, q),
                                ) by {
                            if exists|jj: int| 0 <= jj < j && #[trigger] ts@[jj] as int == q {
                                assert(table_has(t@, p as int, *v, q));
                                assert(table_edges(t@).contains((p as int, *v, q)));
                            }
                            if table_edges(t@).contains((p as int, *v, q)) {
                                assert(table_has(t@, p as int, *v, q));
                            }
                        }
                    }
                },
            }
        }
        p += 1;
    }
    acc
}

impl<V: Eq + Hash + Copy> NFA<V> {
    /// The subset automaton of an automaton with fewer than 128 states. Every
    /// set of states is held in one word, a bit for each state; the sets are
    /// numbered in the order in which they are found.
    pub fn small_to_dfa(&self) -> (r: DFA<V>)
        requires
            self@.size < 128,
        ensures
            exists|subsets: Seq<Set<int>>| subset_automaton(self@, r@, subsets),
    {
        self.well_formed();
        let ghost m = self@;
        let symbols = set_items(&self.alphabet);
        proof {
            assert forall|x: usize| self.initials@.contains(x) implies x < 128 by {
                assert(m.initials.contains(x as int));
            }
        }
        let init = key_of_set(&self.initials);
        let mut keys: Vec<u128> = Vec::new();
        keys.push(init);
        let mut index: HashMap<u128, usize> = HashMap::new();
        index.insert(init, 0);
        let mut dtrans: Vec<HashMap<V, usize>> = one_state();
        let mut dfinals: HashSet<usize> = HashSet::new();
        if key_meets(init, &self.finals) {
            dfinals.insert(0);
        }
        proof {
            assert(m.finals == ints(self.finals@));
            assert(m.initials == ints(self.initials@));
            assert(key_final(m, init) == dfinals@.contains(0usize));
            assert forall|j: int, q: int| 0 <= j < keys@.len() && #[trigger] bit(keys@[j], q) implies q
                < m.size by {
                assert(members(init).contains(q));
            }
            assert(det_inv(m, keys@, index@, dfinals@, trans_of(dtrans@)));
        }
        let mut i: usize = 0;
        while i < keys.len()
            invariant
                obeys_key_model::<V>(),
                m == self@,
                m.wf(),
                m.size < 128,
                symbols@.to_set() == m.alphabet,
                symbols@.no_duplicates(),
                i <= keys@.len() == dtrans@.len(),
                keys@.len() <= usize::MAX,
                det_inv(m, keys@, index@, dfinals@, trans_of(dtrans@)),
                breadth_first(trans_of(dtrans@)),
                forall|j: int|
                    0 < j < keys@.len() ==> #[trigger] entered_by(trans_of(dtrans@), j, i as int),
                forall|j: int, v: V| #[trigger]
                    trans_of(dtrans@).contains_key((j, v)) ==> j < i,
                forall|j: int, v: V|
                    0 <= j < i && m.alphabet.contains(v) && !(#[trigger] trans_of(
                        dtrans@,
                    ).contains_key((j, v))) ==> m.step(members(keys@[j]), v) == Set::<int>::empty(),
            decreases 2 * usize::MAX - keys@.len() - i,
        {
            let key = keys[i];
            let ghost len0 = keys@.len();
            let mut si: usize = 0;
            while si < symbols.len()
                invariant
                    obeys_key_model::<V>(),
                    len0 <= keys@.len() <= usize::MAX,
                    m == self@,
                    m.wf(),
                    m.size < 128,
                    symbols@.to_set() == m.alphabet,
                    symbols@.no_duplicates(),
                    si <= symbols@.len(),
                    i < keys@.len() == dtrans@.len(),
                    key == keys@[i as int],
                    det_inv(m, keys@, index@, dfinals@, trans_of(dtrans@)),
                    breadth_first(trans_of(dtrans@)),
                    forall|j: int|
                        0 < j < keys@.len() ==> #[trigger] entered_by(trans_of(dtrans@), j, i as int),
                    forall|j: int, v: V| #[trigger]
                        trans_of(dtrans@).contains_key((j, v)) ==> j < i || (j == i && exists|
                            sj: int,
                        | 0 <= sj < si && symbols@[sj] == v),
                    forall|j: int, v: V|
                        (0 <= j < i || (j == i && exists|sj: int| 0 <= sj < si && symbols@[sj] == v))
                            && m.alphabet.contains(v) && !(#[trigger] trans_of(dtrans@).contains_key(
                            (j, v),
                        )) ==> m.step(members(keys@[j]), v) == Set::<int>::empty(),
                decreases symbols@.len() - si,
            {
                let v = symbols[si];
                let ghost keys0 = keys@;
                let ghost index0 = index@;
                let ghost finals0 = dfinals@;
                let ghost trans0 = trans_of(dtrans@);
                proof {
                    assert(m.edges == table_edges(self.transitions@));
                    assert(symbols@.contains(symbols@[si as int]));
                    assert(symbols@.to_set().contains(v));
                    assert(!trans0.contains_key((i as int, v))) by {
                        if trans0.contains_key((i as int, v)) {
                            let sj = choose|sj: int| 0 <= sj < si && symbols@[sj] == v;
                            assert(false);
                        }
                    }
                }
                let succ = successors(&self.transitions, key, &v);
                proof {
                    assert(members(succ) =~= m.step(members(key), v));
                    lemma_members_zero(succ);
                }
                if succ != 0 {
                    let found = index.get(&succ);
                    match found {
                        Some(j) => {
                            let target = *j;
                            proof {
                                lemma_det_old_target(
                                    m,
                                    keys0,
                                    index0,
                                    finals0,
                                    trans0,
                                    i as int,
                                    v,
                                    succ,
                                );
                                lemma_bfs_step(trans0, i as int, v, target as int, keys0.len() as int);
                            }
                            set_trans(&mut dtrans, i, v, target);
                        },
                        None => {
                            let l = keys.len();
                            keys.push(succ);
                            let total = keys.len();
                            index.insert(succ, l);
                            push_dfa_state(&mut dtrans);
                            let is_final = key_meets(succ, &self.finals);
                            if is_final {
                                dfinals.insert(l);
                            }
                            proof {
                                assert(m.finals == ints(self.finals@));
                                assert(is_final == key_final(m, succ));
                                lemma_det_new_target(
                                    m,
                                    keys0,
                                    index0,
                                    finals0,
                                    trans0,
                                    i as int,
                                    v,
                                    succ,
                                    dfinals@,
                                );
                                lemma_bfs_step(trans0, i as int, v, l as int, keys0.len() as int);
                            }
                            set_trans(&mut dtrans, i, v, l);
                        },
                    }
                }
                proof {
                    let t1 = trans_of(dtrans@);
                    assert forall|j: int, w: V| #[trigger] t1.contains_key((j, w)) implies j < i || (j
                        == i && exists|sj: int| 0 <= sj < si + 1 && symbols@[sj] == w) by {
                        if (j, w) == (i as int, v) {
                            assert(symbols@[si as int] == w);
                        } else {
                            assert(trans0.contains_key((j, w)));
                            if j == i {
                                let sj = choose|sj: int| 0 <= sj < si && symbols@[sj] == w;
                                assert(0 <= sj < si + 1 && symbols@[sj] == w);
                            }
                        }
                    }
                    assert forall|j: int, w: V|
                        (0 <= j < i || (j == i && exists|sj: int|
                            0 <= sj < si + 1 && symbols@[sj] == w)) && m.alphabet.contains(w) && !(
                        #[trigger] t1.contains_key((j, w))) implies m.step(members(keys@[j]), w)
                        == Set::<int>::empty() by {
                        assert(keys@[j] == keys0[j]);
                        if (j, w) == (i as int, v) {
                            assert(succ == 0);
                        } else {
                            assert(!trans0.contains_key((j, w)));
                            if j == i {
                                let sj = choose|sj: int| 0 <= sj < si + 1 && symbols@[sj] == w;
                                if sj == si {
                                    assert(false);
                                }
                                assert(0 <= sj < si && symbols@[sj] == w);
                            }
                        }
                    }
                }
                si += 1;
            }
            proof {
                let t1 = trans_of(dtrans@);
                assert forall|j: int, v: V|
                    0 <= j < i + 1 && m.alphabet.contains(v) && !(#[trigger] t1.contains_key(
                        (j, v),
                    )) implies m.step(members(keys@[j]), v) == Set::<int>::empty() by {
                    if j == i {
                        assert(symbols@.to_set().contains(v));
                        assert(symbols@.contains(v));
                        let sj = choose|sj: int| 0 <= sj < symbols@.len() && symbols@[sj] == v;
                        assert(0 <= sj < si && symbols@[sj] == v);
                    }
                }
                assert forall|j: int, v: V| #[trigger] t1.contains_key((j, v)) implies j < i + 1 by {}
                assert forall|j: int| 0 < j < keys@.len() implies #[trigger] entered_by(
                    t1,
                    j,
                    i + 1,
                ) by {
                    lemma_entered_later(t1, j, i as int, i + 1);
                }
            }
            i += 1;
        }
        let alphabet = copy_set(&self.alphabet);
        proof {
            let d = dfa_model_of(alphabet@, 0, dfinals@, dtrans@);
            lemma_det_done(m, keys@, index@, dfinals@, trans_of(dtrans@), d);
        }
        DFA::from_parts(alphabet, 0, dfinals, dtrans)
    }
}

impl<V: Eq + Hash + Copy> ToDfa<V> for NFA<V> {
    /// Automata of 128 states or more can be determinised only where they
    /// accept nothing.
    open spec fn determinizable(&self) -> bool {
        self@.determinizable()
    }

    open spec fn determinized(&self, d: DfaModel<V>) -> bool {
        determinizes(self@, d)
    }

    /// A deterministic automaton for the words over the alphabet that `self`
    /// accepts: one state that is not final where `self` accepts nothing, the
    /// subset automaton otherwise.
    fn to_dfa(&self) -> (r: DFA<V>)
        ensures
            accepts_like(r@, self@),
            self@.proper() ==> forall|w: Seq<V>| r@.accepts(w) == self@.accepts(w),
            r@.alphabet == self@.alphabet,
    {
        let r = if self.is_empty() {
            self.well_formed();
            let alphabet = self.alphabet();
            DFA::new_empty(&alphabet)
        } else {
            self.small_to_dfa()
        };
        proof {
            assert(determinizes(self@, r@));
            law_determinize_accepts_like(self@, r@);
            if self@.proper() {
                crate::laws::law_determinize_proper(self@, r@);
            }
        }
        r
    }
}

} // verus!
