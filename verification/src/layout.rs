//! Dense indexing of information sets and the layout of the flat CFR
//! tables: every information set gets `max_actions` rows, each row one
//! slot (scalar tables) or `combo_width` slots (per-combination tables),
//! laid out information set after information set.

use vstd::prelude::*;
use std::collections::HashMap;
use crate::game::InfoSetId;

verus! {

broadcast use vstd::std_specs::hash::group_hash_axioms;

/// An information set found by enumerating the game tree, with its
/// number of legal actions.
#[derive(Debug, Clone, Copy, PartialEq, Eq)]
pub struct InfoSetDescriptor {
    /// The information set.
    pub info_set_id: InfoSetId,
    /// Number of legal actions there.
    pub num_actions: usize,
}

/// The same, for the per-combination solver.
#[derive(Debug, Clone, Copy, PartialEq, Eq)]
pub struct VectorInfoSetDescriptor {
    /// The information set.
    pub info_set_id: InfoSetId,
    /// Number of legal actions there.
    pub num_actions: usize,
}

/// The largest action count among the first `n` descriptors.
pub open spec fn max_actions_of(d: Seq<InfoSetDescriptor>, n: int) -> nat
    decreases n,
{
    if n <= 0 {
        0
    } else {
        let m = max_actions_of(d, n - 1);
        if d[n - 1].num_actions > m {
            d[n - 1].num_actions as nat
        } else {
            m
        }
    }
}

/// No information set occurs twice.
pub open spec fn ids_distinct(d: Seq<InfoSetDescriptor>) -> bool {
    forall|i: int, j: int| 0 <= i < j < d.len() ==> d[i].info_set_id != d[j].info_set_id
}

/// Dense indices `0..n` for a list of distinct information sets, in the
/// order they were enumerated, with their action counts.
#[derive(Debug, Clone)]
pub struct InfoSetIndex {
    ids: Vec<InfoSetId>,
    num_actions: Vec<usize>,
    id_to_idx: HashMap<u32, usize>,
    max_actions: usize,
}

impl InfoSetIndex {
    /// The information sets, by dense index.
    pub closed spec fn ids(&self) -> Seq<InfoSetId> {
        self.ids@
    }

    /// The action counts, by dense index.
    pub closed spec fn action_counts(&self) -> Seq<usize> {
        self.num_actions@
    }

    /// The largest action count.
    pub closed spec fn spec_max_actions(&self) -> usize {
        self.max_actions
    }

    /// The index is consistent: one action count per information set, the
    /// map sends each information set to its position, and the maximum
    /// is the largest count.
    pub closed spec fn wf(&self) -> bool {
        &&& self.ids@.len() == self.num_actions@.len()
        &&& forall|i: int, j: int| 0 <= i < j < self.ids@.len() ==> self.ids@[i] != self.ids@[j]
        &&& forall|i: int|
            0 <= i < self.ids@.len() ==> #[trigger] self.id_to_idx@.contains_key(self.ids@[i].0)
                && self.id_to_idx@[self.ids@[i].0] == i
        &&& forall|k: u32|
            #[trigger] self.id_to_idx@.contains_key(k) ==> {
                let i = self.id_to_idx@[k] as int;
                0 <= i < self.ids@.len() && self.ids@[i].0 == k
            }
        &&& forall|i: int| 0 <= i < self.num_actions@.len() ==> #[trigger] self.num_actions@[i] <= self.max_actions
        &&& (self.num_actions@.len() > 0 ==> exists|i: int|
            0 <= i < self.num_actions@.len() && #[trigger] self.num_actions@[i] == self.max_actions)
    }

    /// Indexes the descriptors in order. Every information set must occur
    /// once and have at least one action.
    pub fn new(descriptors: &[InfoSetDescriptor]) -> (r: InfoSetIndex)
        requires
            descriptors@.len() > 0,
            ids_distinct(descriptors@),
            max_actions_of(descriptors@, descriptors@.len() as int) > 0,
        ensures
            r.wf(),
            r.ids().len() == descriptors@.len(),
            forall|i: int|
                0 <= i < descriptors@.len() ==> #[trigger] r.ids()[i] == descriptors@[i].info_set_id
                    && r.action_counts()[i] == descriptors@[i].num_actions,
            r.spec_max_actions() == max_actions_of(descriptors@, descriptors@.len() as int),
    {
        let mut ids: Vec<InfoSetId> = Vec::new();
        let mut num_actions: Vec<usize> = Vec::new();
        let mut id_to_idx: HashMap<u32, usize> = HashMap::new();
        let mut max_actions: usize = 0;
        let mut i: usize = 0;
        while i < descriptors.len()
            invariant
                i <= descriptors@.len(),
                ids_distinct(descriptors@),
                ids@.len() == i,
                num_actions@.len() == i,
                forall|j: int|
                    0 <= j < i ==> #[trigger] ids@[j] == descriptors@[j].info_set_id
                        && num_actions@[j] == descriptors@[j].num_actions,
                forall|j: int|
                    0 <= j < i ==> #[trigger] id_to_idx@.contains_key(ids@[j].0)
                        && id_to_idx@[ids@[j].0] == j,
                forall|k: u32|
                    #[trigger] id_to_idx@.contains_key(k) ==> {
                        let j = id_to_idx@[k] as int;
                        0 <= j < i && ids@[j].0 == k
                    },
                max_actions == max_actions_of(descriptors@, i as int),
                forall|j: int| 0 <= j < i ==> #[trigger] num_actions@[j] <= max_actions,
                i > 0 ==> exists|j: int| 0 <= j < i && #[trigger] num_actions@[j] == max_actions,
            decreases descriptors.len() - i,
        {
            let d = descriptors[i];
            proof {
                assert forall|j: int| 0 <= j < i implies ids@[j].0 != d.info_set_id.0 by {
                    assert(ids@[j] == descriptors@[j].info_set_id);
                }
            }
            let ghost wit: int = if i > 0 {
                choose|j: int| 0 <= j < i && #[trigger] num_actions@[j] == max_actions
            } else {
                0
            };
            let ghost ids_before = ids@;
            let ghost map_before = id_to_idx@;
            id_to_idx.insert(d.info_set_id.0, i);
            ids.push(d.info_set_id);
            num_actions.push(d.num_actions);
            if d.num_actions > max_actions {
                max_actions = d.num_actions;
                assert(num_actions@[i as int] == max_actions);
            } else if i > 0 {
                assert(num_actions@[wit] == max_actions);
            } else {
                assert(num_actions@[0] == max_actions);
            }
            proof {
                assert forall|k: u32| #[trigger] id_to_idx@.contains_key(k) implies {
                    let j = id_to_idx@[k] as int;
                    0 <= j < i + 1 && ids@[j].0 == k
                } by {
                    if k != d.info_set_id.0 {
                        assert(map_before.contains_key(k));
                        let j = id_to_idx@[k] as int;
                        assert(ids@[j] == ids_before[j]);
                    }
                }
            }
            i += 1;
        }
        let r = InfoSetIndex { ids, num_actions, id_to_idx, max_actions };
        r
    }

    /// Number of information sets.
    pub fn len(&self) -> (n: usize)
        requires
            self.wf(),
        ensures
            n == self.ids().len(),
    {
        self.ids.len()
    }

    /// The largest action count.
    pub fn max_actions(&self) -> (m: usize)
        ensures
            m == self.spec_max_actions(),
    {
        self.max_actions
    }

    /// The dense index of an information set, if it is indexed.
    pub fn index_of(&self, id: InfoSetId) -> (r: Option<usize>)
        requires
            self.wf(),
        ensures
            match r {
                Some(i) => i < self.ids().len() && self.ids()[i as int] == id,
                None => forall|i: int| 0 <= i < self.ids().len() ==> self.ids()[i] != id,
            },
    {
        match self.id_to_idx.get(&id.0) {
            Some(i) => Some(*i),
            None => {
                assert forall|i: int| 0 <= i < self.ids().len() implies self.ids()[i] != id by {
                    assert(self.id_to_idx@.contains_key(self.ids@[i].0));
                }
                None
            },
        }
    }

    /// The action count at a dense index.
    pub fn num_actions_at(&self, idx: usize) -> (n: usize)
        requires
            self.wf(),
            idx < self.ids().len(),
        ensures
            n == self.action_counts()[idx as int],
    {
        self.num_actions[idx]
    }

    /// The information sets with their dense indices, in index order.
    pub fn iter_ids(&self) -> (r: Vec<(InfoSetId, usize)>)
        requires
            self.wf(),
        ensures
            r@.len() == self.ids().len(),
            forall|i: int| 0 <= i < r@.len() ==> #[trigger] r@[i] == (self.ids()[i], i as usize),
    {
        let mut r: Vec<(InfoSetId, usize)> = Vec::new();
        let mut i: usize = 0;
        while i < self.ids.len()
            invariant
                i <= self.ids@.len(),
                r@.len() == i,
                forall|j: int| 0 <= j < i ==> #[trigger] r@[j] == (self.ids@[j], j as usize),
            decreases self.ids.len() - i,
        {
            r.push((self.ids[i], i));
            i += 1;
        }
        r
    }
}

/// The descriptors after a walk reaches a decision node: an information
/// set met for the first time is appended with its action count; one met
/// before is left as first recorded.
pub open spec fn after_visit(d: Seq<InfoSetDescriptor>, id: InfoSetId, n: usize) -> Seq<
    InfoSetDescriptor,
> {
    if exists|i: int| 0 <= i < d.len() && #[trigger] d[i].info_set_id == id {
        d
    } else {
        d.push(InfoSetDescriptor { info_set_id: id, num_actions: n })
    }
}

/// The descriptors collected from decision nodes met in this order.
pub open spec fn collected(visits: Seq<(InfoSetId, usize)>) -> Seq<InfoSetDescriptor>
    decreases visits.len(),
{
    if visits.len() == 0 {
        seq![]
    } else {
        after_visit(collected(visits.drop_last()), visits.last().0, visits.last().1)
    }
}

/// Collects the information sets of a game-tree walk in the order they
/// are first met, each with the action count seen at its first node.
pub struct InfoSetCollector {
    seen: HashMap<u32, usize>,
    out: Vec<InfoSetDescriptor>,
}

impl InfoSetCollector {
    /// The descriptors collected so far.
    pub closed spec fn descriptors(&self) -> Seq<InfoSetDescriptor> {
        self.out@
    }

    /// No information set is collected twice, and the map sends each
    /// collected one to its position.
    pub closed spec fn wf(&self) -> bool {
        &&& ids_distinct(self.out@)
        &&& forall|i: int|
            0 <= i < self.out@.len() ==> #[trigger] self.seen@.contains_key(
                self.out@[i].info_set_id.0,
            ) && self.seen@[self.out@[i].info_set_id.0] == i
        &&& forall|k: u32|
            #[trigger] self.seen@.contains_key(k) ==> {
                let i = self.seen@[k] as int;
                0 <= i < self.out@.len() && self.out@[i].info_set_id.0 == k
            }
    }

    /// An empty collector.
    pub fn new() -> (c: InfoSetCollector)
        ensures
            c.wf(),
            c.descriptors() == Seq::<InfoSetDescriptor>::empty(),
    {
        InfoSetCollector { seen: HashMap::new(), out: Vec::new() }
    }

    /// Records a decision node of information set `id` with `num_actions`
    /// legal actions.
    pub fn visit(&mut self, id: InfoSetId, num_actions: usize)
        requires
            old(self).wf(),
        ensures
            final(self).wf(),
            final(self).descriptors() == after_visit(old(self).descriptors(), id, num_actions),
    {
        match self.seen.get(&id.0) {
            Some(idx) => {
                let ghost i = *idx as int;
                assert(self.out@[i].info_set_id == id);
            },
            None => {
                proof {
                    assert forall|i: int| 0 <= i < self.out@.len() implies #[trigger] self.out@[i].info_set_id
                        != id by {
                        assert(self.seen@.contains_key(self.out@[i].info_set_id.0));
                    }
                }
                let idx = self.out.len();
                let ghost out_before = self.out@;
                let ghost map_before = self.seen@;
                self.out.push(InfoSetDescriptor { info_set_id: id, num_actions });
                self.seen.insert(id.0, idx);
                proof {
                    assert forall|k: u32| #[trigger] self.seen@.contains_key(k) implies {
                        let i = self.seen@[k] as int;
                        0 <= i < self.out@.len() && self.out@[i].info_set_id.0 == k
                    } by {
                        if k != id.0 {
                            assert(map_before.contains_key(k));
                            let i = self.seen@[k] as int;
                            assert(self.out@[i] == out_before[i]);
                        }
                    }
                    assert forall|i: int| 0 <= i < self.out@.len() implies #[trigger] self.seen@.contains_key(
                        self.out@[i].info_set_id.0,
                    ) && self.seen@[self.out@[i].info_set_id.0] == i by {
                        if i < out_before.len() {
                            assert(self.out@[i] == out_before[i]);
                            assert(map_before.contains_key(out_before[i].info_set_id.0));
                        }
                    }
                }
            },
        }
    }

    /// The collected descriptors, in the order first met.
    pub fn into_descriptors(self) -> (r: Vec<InfoSetDescriptor>)
        requires
            self.wf(),
        ensures
            r@ == self.descriptors(),
            ids_distinct(r@),
    {
        self.out
    }
}

/// Some descriptor of `d` is for information set `id`.
pub open spec fn names_info_set(d: Seq<InfoSetDescriptor>, id: InfoSetId) -> bool {
    exists|i: int| 0 <= i < d.len() && #[trigger] d[i].info_set_id == id
}

/// Visit `k` is the first visit of `d`'s information set, with `d`'s
/// action count.
pub open spec fn first_visit(visits: Seq<(InfoSetId, usize)>, k: int, d: InfoSetDescriptor) -> bool {
    &&& 0 <= k < visits.len()
    &&& visits[k] == (d.info_set_id, d.num_actions)
    &&& forall|j: int| 0 <= j < k ==> (#[trigger] visits[j]).0 != d.info_set_id
}

/// Some visit is the first visit of `d`'s information set, with `d`'s
/// action count.
pub open spec fn first_visited(visits: Seq<(InfoSetId, usize)>, d: InfoSetDescriptor) -> bool {
    exists|k: int| first_visit(visits, k, d)
}

/// The descriptors collected from any walk name every visited
/// information set exactly once, with the action count of its first
/// visit.
pub proof fn lemma_collected_sound(visits: Seq<(InfoSetId, usize)>)
    ensures
        ids_distinct(collected(visits)),
        forall|k: int| 0 <= k < visits.len() ==> names_info_set(collected(visits), #[trigger] visits[k].0),
        forall|i: int|
            0 <= i < collected(visits).len() ==> first_visited(visits, #[trigger] collected(visits)[i]),
    decreases visits.len(),
{
    if visits.len() > 0 {
        let p = visits.drop_last();
        let c = collected(p);
        let (id, n) = visits.last();
        let cv = collected(visits);
        lemma_collected_sound(p);
        let found = names_info_set(c, id);
        assert forall|k: int| 0 <= k < visits.len() implies names_info_set(cv, #[trigger] visits[k].0) by {
            if k < p.len() {
                assert(visits[k] == p[k]);
                assert(names_info_set(c, p[k].0));
                let i = choose|i: int| 0 <= i < c.len() && #[trigger] c[i].info_set_id == p[k].0;
                assert(cv[i] == c[i]);
            } else if found {
                let i = choose|i: int| 0 <= i < c.len() && #[trigger] c[i].info_set_id == id;
                assert(cv[i] == c[i]);
            } else {
                assert(cv[c.len() as int].info_set_id == id);
            }
        }
        assert forall|i: int| 0 <= i < cv.len() implies first_visited(visits, #[trigger] cv[i]) by {
            if i < c.len() {
                assert(cv[i] == c[i]);
                assert(first_visited(p, c[i]));
                let k = choose|k: int| first_visit(p, k, c[i]);
                assert(visits[k] == p[k]);
                assert forall|j: int| 0 <= j < k implies (#[trigger] visits[j]).0 != cv[i].info_set_id by {
                    assert(visits[j] == p[j]);
                    assert(p[j].0 != c[i].info_set_id);
                }
                assert(first_visit(visits, k, cv[i]));
            } else {
                let k = p.len() as int;
                assert(!found);
                assert(cv[i] == InfoSetDescriptor { info_set_id: id, num_actions: n });
                assert forall|j: int| 0 <= j < k implies (#[trigger] visits[j]).0 != cv[i].info_set_id by {
                    assert(visits[j] == p[j]);
                    if visits[j].0 == id {
                        assert(names_info_set(c, p[j].0));
                    }
                }
                assert(first_visit(visits, k, cv[i]));
            }
        }
    }
}

/// Per-combination descriptors seen as plain descriptors.
pub open spec fn as_descriptors(d: Seq<VectorInfoSetDescriptor>) -> Seq<InfoSetDescriptor> {
    d.map_values(
        |x: VectorInfoSetDescriptor|
            InfoSetDescriptor { info_set_id: x.info_set_id, num_actions: x.num_actions },
    )
}

/// The layout of the per-combination tables: information set `i`, action
/// `a`, combination `c` lives at `i * max_actions * combo_width +
/// a * combo_width + c`.
#[derive(Debug, Clone)]
pub struct VectorTableLayout {
    index: InfoSetIndex,
    combo_width: usize,
    stride_info_set: usize,
}

impl VectorTableLayout {
    /// The index of information sets.
    pub closed spec fn info_sets(&self) -> InfoSetIndex {
        self.index
    }

    /// Width of the combination axis.
    pub closed spec fn spec_combo_width(&self) -> usize {
        self.combo_width
    }

    /// Slots per information set.
    pub closed spec fn spec_stride(&self) -> usize {
        self.stride_info_set
    }

    /// Strides agree with the index, and the whole table fits in memory.
    pub closed spec fn wf(&self) -> bool {
        &&& self.index.wf()
        &&& self.combo_width > 0
        &&& 0 < self.index.spec_max_actions() <= 255
        &&& self.stride_info_set == self.index.spec_max_actions() * self.combo_width
        &&& self.index.ids().len() * self.stride_info_set <= usize::MAX
    }

    /// Lays out tables for the descriptors. The descriptors must be
    /// non-empty with distinct information sets, every count at most 255
    /// and some count positive, and the combination width positive.
    pub fn new(descriptors: &[VectorInfoSetDescriptor], combo_width: usize) -> (r: VectorTableLayout)
        requires
            descriptors@.len() > 0,
            combo_width > 0,
            ids_distinct(as_descriptors(descriptors@)),
            0 < max_actions_of(as_descriptors(descriptors@), descriptors@.len() as int) <= 255,
            descriptors@.len() * max_actions_of(as_descriptors(descriptors@), descriptors@.len() as int)
                * combo_width <= usize::MAX,
        ensures
            r.wf(),
            r.spec_combo_width() == combo_width,
            r.info_sets().ids().len() == descriptors@.len(),
            forall|i: int|
                0 <= i < descriptors@.len() ==> #[trigger] r.info_sets().ids()[i]
                    == descriptors@[i].info_set_id,
            forall|i: int|
                0 <= i < descriptors@.len() ==> #[trigger] r.info_sets().action_counts()[i]
                    == descriptors@[i].num_actions,
            r.info_sets().spec_max_actions() == max_actions_of(
                as_descriptors(descriptors@),
                descriptors@.len() as int,
            ),
    {
        let mut plain: Vec<InfoSetDescriptor> = Vec::new();
        let mut i: usize = 0;
        while i < descriptors.len()
            invariant
                i <= descriptors@.len(),
                plain@ == as_descriptors(descriptors@).take(i as int),
            decreases descriptors.len() - i,
        {
            let d = descriptors[i];
            plain.push(InfoSetDescriptor { info_set_id: d.info_set_id, num_actions: d.num_actions });
            i += 1;
            assert(plain@ =~= as_descriptors(descriptors@).take(i as int));
        }
        assert(plain@ =~= as_descriptors(descriptors@));
        let index = InfoSetIndex::new(plain.as_slice());
        let max_actions = index.max_actions();
        let n = descriptors.len();
        assert(max_actions * combo_width <= n * max_actions * combo_width) by (nonlinear_arith)
            requires
                n >= 1,
        ;
        assert(n * (max_actions * combo_width) == n * max_actions * combo_width) by (nonlinear_arith);
        let stride_info_set = max_actions * combo_width;
        let r = VectorTableLayout { index, combo_width, stride_info_set };
        assert(r.info_sets() == index);
        assert forall|i: int| 0 <= i < descriptors@.len() implies #[trigger] r.info_sets().ids()[i]
            == descriptors@[i].info_set_id by {
            assert(plain@[i] == as_descriptors(descriptors@)[i]);
        }
        assert forall|i: int|
            0 <= i < descriptors@.len() implies #[trigger] r.info_sets().action_counts()[i]
            == descriptors@[i].num_actions by {
            assert(plain@[i] == as_descriptors(descriptors@)[i]);
            assert(index.ids()[i] == plain@[i].info_set_id);
        }
        r
    }

    /// Number of information sets.
    pub fn len(&self) -> (n: usize)
        requires
            self.wf(),
        ensures
            n == self.info_sets().ids().len(),
    {
        self.index.len()
    }

    /// Whether there are no information sets.
    pub fn is_empty(&self) -> (b: bool)
        requires
            self.wf(),
        ensures
            b == (self.info_sets().ids().len() == 0),
    {
        self.index.len() == 0
    }

    /// Width of the combination axis.
    pub fn combo_width(&self) -> (w: usize)
        ensures
            w == self.spec_combo_width(),
    {
        self.combo_width
    }

    /// The largest action count (rows per information set).
    pub fn max_actions(&self) -> (m: usize)
        ensures
            m == self.info_sets().spec_max_actions(),
    {
        self.index.max_actions()
    }

    /// Slots in each table.
    pub fn total(&self) -> (t: usize)
        requires
            self.wf(),
        ensures
            t == self.info_sets().ids().len() * self.spec_stride(),
    {
        self.index.len() * self.stride_info_set
    }

    /// The dense index of an information set, if it is laid out.
    pub fn index_of(&self, id: InfoSetId) -> (r: Option<usize>)
        requires
            self.wf(),
        ensures
            match r {
                Some(i) => i < self.info_sets().ids().len() && self.info_sets().ids()[i as int] == id,
                None => forall|i: int|
                    0 <= i < self.info_sets().ids().len() ==> self.info_sets().ids()[i] != id,
            },
    {
        self.index.index_of(id)
    }

    /// The action count at a dense index.
    pub fn num_actions_at(&self, idx: usize) -> (n: usize)
        requires
            self.wf(),
            idx < self.info_sets().ids().len(),
        ensures
            n == self.info_sets().action_counts()[idx as int],
    {
        self.index.num_actions_at(idx)
    }

    /// The action count of an information set, if it is laid out.
    pub fn num_actions_for(&self, id: InfoSetId) -> (r: Option<usize>)
        requires
            self.wf(),
        ensures
            match r {
                Some(n) => exists|i: int|
                    0 <= i < self.info_sets().ids().len() && self.info_sets().ids()[i] == id
                        && self.info_sets().action_counts()[i] == n,
                None => forall|i: int|
                    0 <= i < self.info_sets().ids().len() ==> self.info_sets().ids()[i] != id,
            },
    {
        match self.index_of(id) {
            Some(i) => Some(self.num_actions_at(i)),
            None => None,
        }
    }

    /// The information sets with their dense indices, in index order.
    pub fn iter_ids(&self) -> (r: Vec<(InfoSetId, usize)>)
        requires
            self.wf(),
        ensures
            r@.len() == self.info_sets().ids().len(),
            forall|i: int|
                0 <= i < r@.len() ==> #[trigger] r@[i] == (self.info_sets().ids()[i], i as usize),
    {
        self.index.iter_ids()
    }

    /// Where the row of action `action` of information set `idx` starts;
    /// the row holds `combo_width` slots.
    pub fn row_offset(&self, idx: usize, action: usize) -> (r: usize)
        requires
            self.wf(),
            idx < self.info_sets().ids().len(),
            action < self.info_sets().spec_max_actions(),
        ensures
            r == idx * self.spec_stride() + action * self.spec_combo_width(),
            r + self.spec_combo_width() <= self.info_sets().ids().len() * self.spec_stride(),
    {
        let ghost n = self.index.ids().len();
        let ghost m = self.index.spec_max_actions();
        let cw = self.combo_width;
        proof {
            lemma_row_in_table(n as int, m as int, cw as int, idx as int, action as int);
        }
        idx * self.stride_info_set + action * cw
    }
}

proof fn lemma_row_in_table(n: int, m: int, cw: int, i: int, a: int)
    requires
        0 <= i < n,
        0 <= a < m,
        cw > 0,
    ensures
        i * (m * cw) + a * cw + cw <= n * (m * cw),
        0 <= i * (m * cw) + a * cw,
{
    assert(a * cw + cw <= m * cw) by (nonlinear_arith)
        requires
            0 <= a < m,
            cw > 0,
    ;
    assert(i * (m * cw) + m * cw <= n * (m * cw)) by (nonlinear_arith)
        requires
            0 <= i < n,
            m * cw >= 0,
    ;
    assert(0 <= i * (m * cw) + a * cw) by (nonlinear_arith)
        requires
            0 <= i,
            0 <= a,
            m > 0,
            cw > 0,
    ;
}

/// Rows of distinct (information set, action) pairs never overlap: a
/// write to one row cannot land in another.
pub proof fn lemma_rows_disjoint(m: int, cw: int, i1: int, a1: int, i2: int, a2: int)
    requires
        cw > 0,
        0 <= a1 < m,
        0 <= a2 < m,
        0 <= i1,
        0 <= i2,
        i1 != i2 || a1 != a2,
    ensures
        i1 * (m * cw) + a1 * cw + cw <= i2 * (m * cw) + a2 * cw || i2 * (m * cw) + a2 * cw + cw
            <= i1 * (m * cw) + a1 * cw,
{
    assert(i1 * (m * cw) + a1 * cw == (i1 * m + a1) * cw) by (nonlinear_arith);
    assert(i2 * (m * cw) + a2 * cw == (i2 * m + a2) * cw) by (nonlinear_arith);
    assert(i1 * m + a1 != i2 * m + a2) by (nonlinear_arith)
        requires
            0 <= a1 < m,
            0 <= a2 < m,
            i1 != i2 || a1 != a2,
    ;
    let (r1, r2) = (i1 * m + a1, i2 * m + a2);
    assert((r1 + 1) * cw == r1 * cw + cw) by (nonlinear_arith);
    assert((r2 + 1) * cw == r2 * cw + cw) by (nonlinear_arith);
    if r1 < r2 {
        assert((r1 + 1) * cw <= r2 * cw) by (nonlinear_arith)
            requires
                r1 + 1 <= r2,
                cw > 0,
        ;
    } else {
        assert((r2 + 1) * cw <= r1 * cw) by (nonlinear_arith)
            requires
                r2 + 1 <= r1,
                cw > 0,
        ;
    }
}

/// The shape of the scalar CFR tables: `len` information sets of `stride`
/// slots each, the slots of information set `i` being
/// `i * stride .. (i + 1) * stride`.
#[derive(Debug, Clone, Copy)]
pub struct RegretTableShape {
    num_info_sets: usize,
    stride: usize,
}

impl RegretTableShape {
    /// Number of information sets.
    pub closed spec fn spec_len(&self) -> nat {
        self.num_info_sets as nat
    }

    /// Slots per information set.
    pub closed spec fn spec_stride(&self) -> nat {
        self.stride as nat
    }

    /// The stride is positive and every slot index fits in `usize`.
    pub closed spec fn wf(&self) -> bool {
        &&& self.stride > 0
        &&& self.num_info_sets * self.stride <= usize::MAX
    }

    /// Shape for `num_info_sets` rows of `max_actions` slots. There must be
    /// at least one slot per row and the table must fit in `usize`.
    pub fn new(num_info_sets: usize, max_actions: usize) -> (r: RegretTableShape)
        requires
            max_actions > 0,
            num_info_sets * max_actions <= usize::MAX,
        ensures
            r.wf(),
            r.spec_len() == num_info_sets,
            r.spec_stride() == max_actions,
    {
        RegretTableShape { num_info_sets, stride: max_actions }
    }

    /// Number of information sets.
    pub fn len(&self) -> (n: usize)
        ensures
            n == self.spec_len(),
    {
        self.num_info_sets
    }

    /// Whether there are no information sets.
    pub fn is_empty(&self) -> (b: bool)
        ensures
            b == (self.spec_len() == 0),
    {
        self.num_info_sets == 0
    }

    /// Slots per information set.
    pub fn stride(&self) -> (s: usize)
        ensures
            s == self.spec_stride(),
    {
        self.stride
    }

    /// Total number of slots of one table.
    pub fn total(&self) -> (t: usize)
        requires
            self.wf(),
        ensures
            t == self.spec_len() * self.spec_stride(),
    {
        self.num_info_sets * self.stride
    }

    /// The slot range `lo..hi` of information set `idx`.
    pub fn row(&self, idx: usize) -> (r: (usize, usize))
        requires
            self.wf(),
            idx < self.spec_len(),
        ensures
            r.0 == idx * self.spec_stride(),
            r.1 == r.0 + self.spec_stride(),
            r.1 <= self.spec_len() * self.spec_stride(),
    {
        let n = self.num_info_sets;
        let s = self.stride;
        assert(idx * s + s <= n * s) by (nonlinear_arith)
            requires
                idx < n,
                s > 0,
        ;
        let lo = idx * s;
        (lo, lo + s)
    }
}

} // verus!
