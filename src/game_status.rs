use vstd::prelude::*;
use crate::ship::Ship;
use crate::ship_status::ShipStatus;

verus! {

/// Running statistics of a game: shot, hit and miss counters and one status
/// per fleet ship, in fleet order.
#[derive(Clone)]
pub struct GameStatus {
    pub(crate) shots: u32,
    pub(crate) hits: u32,
    pub(crate) misses: u32,
    pub(crate) ship_statuses: Vec<ShipStatus>,
}

impl GameStatus {
    pub closed spec fn spec_shots(&self) -> nat {
        self.shots as nat
    }

    pub closed spec fn spec_hits(&self) -> nat {
        self.hits as nat
    }

    pub closed spec fn spec_misses(&self) -> nat {
        self.misses as nat
    }

    pub closed spec fn spec_statuses(&self) -> Seq<ShipStatus> {
        self.ship_statuses@
    }

    /// Every shot is counted either as a hit or as a miss, and the hits are
    /// exactly those the ship statuses count.
    pub open spec fn wf(&self) -> bool {
        &&& self.spec_shots() == self.spec_hits() + self.spec_misses()
        &&& self.spec_hits() == Self::hits_sum(self.spec_statuses())
    }

    /// Total of the hit counts of `statuses`.
    pub open spec fn hits_sum(statuses: Seq<ShipStatus>) -> nat
        decreases statuses.len(),
    {
        if statuses.len() == 0 {
            0
        } else {
            Self::hits_sum(statuses.drop_last()) + statuses.last().spec_hits()
        }
    }

    proof fn lemma_hits_sum_push(statuses: Seq<ShipStatus>, st: ShipStatus)
        ensures
            Self::hits_sum(statuses.push(st)) == Self::hits_sum(statuses) + st.spec_hits(),
    {
        assert(statuses.push(st).drop_last() =~= statuses);
    }

    proof fn lemma_hits_sum_update(statuses: Seq<ShipStatus>, i: int, st: ShipStatus)
        requires
            0 <= i < statuses.len(),
        ensures
            Self::hits_sum(statuses.update(i, st)) + statuses[i].spec_hits() == Self::hits_sum(statuses)
                + st.spec_hits(),
        decreases statuses.len(),
    {
        let u = statuses.update(i, st);
        if i == statuses.len() - 1 {
            assert(u.drop_last() =~= statuses.drop_last());
        } else {
            assert(u.drop_last() =~= statuses.drop_last().update(i, st));
            Self::lemma_hits_sum_update(statuses.drop_last(), i, st);
        }
    }

    /// Index of the first status whose ship carries `code`, if there is one.
    pub open spec fn first_with_code(statuses: Seq<ShipStatus>, code: char, i: int) -> bool {
        &&& 0 <= i < statuses.len()
        &&& statuses[i].spec_code() == code
        &&& forall|j: int| 0 <= j < i ==> statuses[j].spec_code() != code
    }

    pub fn new(ships: &[Ship]) -> (r: GameStatus)
        ensures
            r.wf(),
            r.spec_shots() == 0,
            r.spec_hits() == 0,
            r.spec_misses() == 0,
            r.spec_statuses().len() == ships@.len(),
            forall|i: int|
                0 <= i < ships@.len() ==> {
                    &&& #[trigger] r.spec_statuses()[i].spec_name() == ships@[i].spec_name()
                    &&& r.spec_statuses()[i].spec_code() == ships@[i].spec_code()
                    &&& r.spec_statuses()[i].spec_size() == ships@[i].spec_size()
                    &&& r.spec_statuses()[i].spec_hits() == 0
                },
    {
        let mut ship_statuses: Vec<ShipStatus> = Vec::new();
        let mut k: usize = 0;
        while k < ships.len()
            invariant
                k <= ships@.len(),
                ship_statuses@.len() == k,
                forall|i: int|
                    0 <= i < k ==> {
                        &&& #[trigger] ship_statuses@[i].spec_name() == ships@[i].spec_name()
                        &&& ship_statuses@[i].spec_code() == ships@[i].spec_code()
                        &&& ship_statuses@[i].spec_size() == ships@[i].spec_size()
                        &&& ship_statuses@[i].spec_hits() == 0
                    },
                Self::hits_sum(ship_statuses@) == 0,
            decreases ships@.len() - k,
        {
            let ship = &ships[k];
            let st = ShipStatus::new(ship.name(), ship.code(), ship.size());
            proof {
                Self::lemma_hits_sum_push(ship_statuses@, st);
            }
            ship_statuses.push(st);
            k = k + 1;
        }
        GameStatus { shots: 0, hits: 0, misses: 0, ship_statuses }
    }

    /// Total of the counts in `counts`.
    pub open spec fn counts_sum(counts: Seq<u32>) -> nat
        decreases counts.len(),
    {
        if counts.len() == 0 {
            0
        } else {
            Self::counts_sum(counts.drop_last()) + counts.last() as nat
        }
    }

    /// Statistics with `ship_hits[i]` hits on ship `i` and `misses` misses: the
    /// hit counter is the total of `ship_hits`, and every hit or miss is one shot.
    pub fn with_counts(ships: &[Ship], ship_hits: &[u32], misses: u32) -> (r: GameStatus)
        requires
            ship_hits@.len() == ships@.len(),
            Self::counts_sum(ship_hits@) + misses <= u32::MAX,
        ensures
            r.wf(),
            r.spec_hits() == Self::counts_sum(ship_hits@),
            r.spec_misses() == misses,
            r.spec_shots() == Self::counts_sum(ship_hits@) + misses,
            r.spec_statuses().len() == ships@.len(),
            forall|i: int|
                0 <= i < ships@.len() ==> {
                    &&& #[trigger] r.spec_statuses()[i].spec_name() == ships@[i].spec_name()
                    &&& r.spec_statuses()[i].spec_code() == ships@[i].spec_code()
                    &&& r.spec_statuses()[i].spec_size() == ships@[i].spec_size()
                    &&& r.spec_statuses()[i].spec_hits() == ship_hits@[i]
                },
    {
        let mut ship_statuses: Vec<ShipStatus> = Vec::new();
        let mut total: u32 = 0;
        let mut k: usize = 0;
        while k < ships.len()
            invariant
                k <= ships@.len(),
                ship_hits@.len() == ships@.len(),
                Self::counts_sum(ship_hits@) + misses <= u32::MAX,
                ship_statuses@.len() == k,
                forall|i: int|
                    0 <= i < k ==> {
                        &&& #[trigger] ship_statuses@[i].spec_name() == ships@[i].spec_name()
                        &&& ship_statuses@[i].spec_code() == ships@[i].spec_code()
                        &&& ship_statuses@[i].spec_size() == ships@[i].spec_size()
                        &&& ship_statuses@[i].spec_hits() == ship_hits@[i]
                    },
                Self::hits_sum(ship_statuses@) == total,
                total == Self::counts_sum(ship_hits@.subrange(0, k as int)),
            decreases ships@.len() - k,
        {
            let ship = &ships[k];
            let mut st = ShipStatus::new(ship.name(), ship.code(), ship.size());
            let mut t: u32 = 0;
            while t < ship_hits[k]
                invariant
                    k < ship_hits@.len(),
                    t <= ship_hits@[k as int],
                    st.spec_hits() == t,
                    st.spec_name() == ships@[k as int].spec_name(),
                    st.spec_code() == ships@[k as int].spec_code(),
                    st.spec_size() == ships@[k as int].spec_size(),
                decreases ship_hits@[k as int] - t,
            {
                st.record_hit();
                t = t + 1;
            }
            proof {
                Self::lemma_hits_sum_push(ship_statuses@, st);
                assert(ship_hits@.subrange(0, k + 1).drop_last() =~= ship_hits@.subrange(0, k as int));
                Self::lemma_counts_sum_prefix(ship_hits@, k + 1);
            }
            ship_statuses.push(st);
            total = total + ship_hits[k];
            k = k + 1;
        }
        assert(ship_hits@.subrange(0, k as int) =~= ship_hits@);
        GameStatus { shots: total + misses, hits: total, misses, ship_statuses }
    }

    proof fn lemma_counts_sum_prefix(counts: Seq<u32>, n: int)
        requires
            0 <= n <= counts.len(),
        ensures
            Self::counts_sum(counts.subrange(0, n)) <= Self::counts_sum(counts),
        decreases counts.len(),
    {
        if n < counts.len() {
            assert(counts.drop_last().subrange(0, n) =~= counts.subrange(0, n));
            Self::lemma_counts_sum_prefix(counts.drop_last(), n);
        } else {
            assert(counts.subrange(0, n) =~= counts);
        }
    }

    fn record_shot(&mut self)
        requires
            old(self).spec_shots() < u32::MAX,
        ensures
            final(self).spec_shots() == old(self).spec_shots() + 1,
            final(self).spec_hits() == old(self).spec_hits(),
            final(self).spec_misses() == old(self).spec_misses(),
            final(self).spec_statuses() == old(self).spec_statuses(),
    {
        self.shots = self.shots + 1;
    }

    /// Counts a shot that hit no unhit ship cell.
    pub fn record_miss(&mut self)
        requires
            old(self).spec_shots() < u32::MAX,
            old(self).spec_misses() < u32::MAX,
        ensures
            old(self).wf() ==> final(self).wf(),
            final(self).spec_shots() == old(self).spec_shots() + 1,
            final(self).spec_misses() == old(self).spec_misses() + 1,
            final(self).spec_hits() == old(self).spec_hits(),
            final(self).spec_statuses() == old(self).spec_statuses(),
    {
        self.record_shot();
        self.misses = self.misses + 1;
    }

    /// Counts a shot on the ship that carries `ship_code`. The first status with
    /// that code takes one more hit and a copy of it is returned; when no status
    /// has that code only the shot is counted and nothing is returned.
    pub fn record_hit(&mut self, ship_code: char) -> (r: Option<ShipStatus>)
        requires
            old(self).spec_shots() < u32::MAX,
            old(self).spec_hits() < u32::MAX,
            forall|i: int|
                0 <= i < old(self).spec_statuses().len() && #[trigger] old(
                    self,
                ).spec_statuses()[i].spec_code() == ship_code ==> old(
                    self,
                ).spec_statuses()[i].spec_hits() < u32::MAX,
        ensures
            final(self).spec_shots() == old(self).spec_shots() + 1,
            final(self).spec_misses() == old(self).spec_misses(),
            r is Some <==> exists|i: int|
                0 <= i < old(self).spec_statuses().len() && #[trigger] old(
                    self,
                ).spec_statuses()[i].spec_code() == ship_code,
            r is None ==> {
                &&& final(self).spec_hits() == old(self).spec_hits()
                &&& final(self).spec_statuses() == old(self).spec_statuses()
            },
            r matches Some(st) ==> exists|i: int|
                {
                    &&& Self::first_with_code(old(self).spec_statuses(), ship_code, i)
                    &&& st.spec_name() == old(self).spec_statuses()[i].spec_name()
                    &&& st.spec_code() == ship_code
                    &&& st.spec_size() == old(self).spec_statuses()[i].spec_size()
                    &&& st.spec_hits() == old(self).spec_statuses()[i].spec_hits() + 1
                    &&& final(self).spec_statuses() == old(self).spec_statuses().update(i, st)
                    &&& final(self).spec_hits() == old(self).spec_hits() + 1
                    &&& (old(self).wf() ==> final(self).wf())
                },
    {
        self.record_shot();
        let mut k: usize = 0;
        while k < self.ship_statuses.len()
            invariant
                k <= self.ship_statuses@.len(),
                self.ship_statuses@ == old(self).ship_statuses@,
                self.spec_shots() == old(self).spec_shots() + 1,
                self.spec_hits() == old(self).spec_hits(),
                self.spec_misses() == old(self).spec_misses(),
                old(self).spec_hits() < u32::MAX,
                old(self).spec_shots() < u32::MAX,
                forall|i: int|
                    0 <= i < old(self).spec_statuses().len() && #[trigger] old(
                        self,
                    ).spec_statuses()[i].spec_code() == ship_code ==> old(
                        self,
                    ).spec_statuses()[i].spec_hits() < u32::MAX,
                forall|j: int| 0 <= j < k ==> #[trigger] self.ship_statuses@[j].spec_code() != ship_code,
            decreases self.ship_statuses@.len() - k,
        {
            if self.ship_statuses[k].code() == ship_code {
                let mut hit_ship = self.ship_statuses[k].duplicate();
                assert(old(self).spec_statuses()[k as int].spec_hits() < u32::MAX);
                assert(old(self).spec_statuses()[k as int].spec_code() == ship_code);
                hit_ship.record_hit();
                self.ship_statuses.set(k, hit_ship.duplicate());
                self.hits = self.hits + 1;
                assert(Self::first_with_code(old(self).spec_statuses(), ship_code, k as int));
                assert(self.spec_statuses() == old(self).spec_statuses().update(k as int, hit_ship));
                proof {
                    Self::lemma_hits_sum_update(old(self).spec_statuses(), k as int, hit_ship);
                }
                return Some(hit_ship);
            }
            k = k + 1;
        }
        None
    }

    pub fn shots(&self) -> (r: u32)
        ensures
            r == self.spec_shots(),
    {
        self.shots
    }

    pub fn hits(&self) -> (r: u32)
        ensures
            r == self.spec_hits(),
    {
        self.hits
    }

    pub fn misses(&self) -> (r: u32)
        ensures
            r == self.spec_misses(),
    {
        self.misses
    }

    /// The status of the ship at `index` in fleet order.
    pub fn ship_status(&self, index: usize) -> (r: Option<ShipStatus>)
        ensures
            index < self.spec_statuses().len() <==> r is Some,
            r matches Some(st) ==> st == self.spec_statuses()[index as int],
    {
        if index < self.ship_statuses.len() {
            Some(self.ship_statuses[index].duplicate())
        } else {
            None
        }
    }

    pub fn ship_count(&self) -> (r: usize)
        ensures
            r == self.spec_statuses().len(),
    {
        self.ship_statuses.len()
    }
}

} // verus!
