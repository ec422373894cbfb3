//! What a query answers, in terms of the index and the point alone.
//!
//! A query asks the preindex, then the candidates of the coarse cell, then those
//! of the fine cell. Each of them may offer its chunk for a level. The laws here
//! say what is offered and that the matches of a completed query are the first
//! offers for their levels, in order.

use vstd::prelude::*;

use crate::cells::Cell;
use crate::collect::{
    answerable, checked_tasks, completed, country_tasks, found, has_level, hit,
    law_query_finds_all, lemma_after_consistent, lemma_settle, passed_over, plan,
    skipped_countries, tier_tasks, Progress, Task, Tier,
};
use crate::finder::{
    coarse_cell, fine_cell, has_division, in_bbox, inner_point, law_selected_members, listed,
    selected,
};
use crate::ieee::Number;
use crate::levels::{coarse_level, fine_level, Level};
use crate::xsci::IndexView;

verus! {

/// A chunk that is offered for a level.
pub type Offer = Option<(Level, Seq<u8>)>;

/// The subtype, as the index records it, makes the division one of the level in
/// the coarse tier.
pub open spec fn is_coarse(subtype: u8, level: Level) -> bool {
    ||| level == Level::Country && (subtype == 0 || subtype == 1)
    ||| level == Level::Region && (subtype == 2 || subtype == 3)
    ||| level == Level::County && subtype == 4
}

/// The subtype, as the index records it, makes the division one of the level in
/// the fine tier.
pub open spec fn is_fine(subtype: u8, level: Level) -> bool {
    ||| level == Level::County && subtype == 5
    ||| level == Level::LocalAdmin && subtype == 6
    ||| level == Level::Locality && subtype == 7
}

/// What is known of a query: the index, the point, the chunks of the slab, and
/// which chunks hold the point.
pub ghost struct Setting {
    pub index: IndexView,
    pub lng: Number,
    pub lat: Number,
    pub slab: spec_fn(u32) -> Seq<u8>,
    pub inside: spec_fn(Seq<u8>) -> bool,
}

/// The candidates of a cell.
pub open spec fn candidates(grid: Map<Cell, Seq<u32>>, cell: Cell) -> Seq<u32> {
    if grid.dom().contains(cell) {
        grid[cell]
    } else {
        Seq::empty()
    }
}

impl Setting {
    /// The preindex gives a country for the point's cell.
    pub open spec fn knows_country(self) -> bool {
        self.index.country_preindex.dom().contains(coarse_cell(self.lng, self.lat))
    }

    /// The candidates of the coarse tier.
    pub open spec fn coarse(self) -> Seq<u32> {
        candidates(self.index.grid_coarse, coarse_cell(self.lng, self.lat))
    }

    /// The candidates of the fine tier.
    pub open spec fn fine(self) -> Seq<u32> {
        candidates(self.index.grid_fine, fine_cell(self.lng, self.lat))
    }

    /// The division is found to hold the point: its box does, and its chunk.
    pub open spec fn is_found(self, idx: u32) -> bool {
        in_bbox(self.index.bboxes[idx as int], self.lng, self.lat) && (self.inside)(
            (self.slab)(idx),
        )
    }

    /// The candidate counts without being looked at: it is the only one, and the
    /// point is well away from the antimeridian and the poles.
    pub open spec fn is_sole(self, list: Seq<u32>) -> bool {
        list.len() == 1 && inner_point(self.lng, self.lat)
    }

    /// The `i`-th candidate of the coarse tier holds the point for the level.
    pub open spec fn coarse_holds(self, i: int, level: Level) -> bool {
        let idx = self.coarse()[i];
        let subtype = self.index.subtypes[idx as int];
        &&& 0 <= i < self.coarse().len()
        &&& is_coarse(subtype, level)
        &&& self.is_sole(self.coarse()) || (self.is_found(idx) && !(self.knows_country() && (subtype
            == 0 || subtype == 1)))
    }

    /// The `i`-th candidate of the fine tier holds the point for the level.
    pub open spec fn fine_holds(self, i: int, level: Level) -> bool {
        let idx = self.fine()[i];
        &&& 0 <= i < self.fine().len()
        &&& is_fine(self.index.subtypes[idx as int], level)
        &&& self.is_sole(self.fine()) || self.is_found(idx)
    }

    /// The offer at a place: the preindex has the first, then come the
    /// candidates of the coarse tier, then those of the fine tier. `Some(level)`
    /// only where the place is for that level.
    pub open spec fn offers_at(self, k: int, level: Level) -> bool {
        let n = self.coarse().len();
        if k == 0 {
            self.knows_country() && level == Level::Country
        } else if k <= n {
            self.coarse_holds(k - 1, level)
        } else {
            self.fine_holds(k - 1 - n, level)
        }
    }

    /// The division at a place.
    pub open spec fn division_at(self, k: int) -> u32 {
        let n = self.coarse().len();
        if k == 0 {
            self.index.country_preindex[coarse_cell(self.lng, self.lat)]
        } else if k <= n {
            self.coarse()[k - 1]
        } else {
            self.fine()[k - 1 - n]
        }
    }

    /// The number of places.
    pub open spec fn places(self) -> nat {
        1 + self.coarse().len() + self.fine().len()
    }

    /// The place is the first that offers a chunk for the level.
    pub open spec fn offers_first(self, k: int, level: Level) -> bool {
        &&& 0 <= k < self.places()
        &&& self.offers_at(k, level)
        &&& forall|j: int| 0 <= j < k ==> !#[trigger] self.offers_at(j, level)
    }

    /// The matches of the completed query.
    pub open spec fn matched(self) -> Seq<(Level, Seq<u8>)> {
        completed(Progress::start(self.index, self.lng, self.lat), self.slab, self.inside).matched
    }
}

/// The chunk that a place offers, with its level.
spec fn offer(q: Setting, k: int) -> Offer {
    if exists|l: Level| #[trigger] q.offers_at(k, l) {
        Some((choose|l: Level| #[trigger] q.offers_at(k, l), (q.slab)(q.division_at(k))))
    } else {
        None
    }
}

/// One offer more.
spec fn taken(before: Seq<(Level, Seq<u8>)>, o: Offer) -> Seq<(Level, Seq<u8>)> {
    match o {
        Some((l, chunk)) => if has_level(before, l) {
            before
        } else {
            before.push((l, chunk))
        },
        None => before,
    }
}

/// The first offers for their levels among the first `n` places.
spec fn firsts(q: Setting, n: nat) -> Seq<(Level, Seq<u8>)>
    decreases n,
{
    if n == 0 {
        Seq::empty()
    } else {
        taken(firsts(q, (n - 1) as nat), offer(q, n - 1))
    }
}

/// A place offers a chunk for one level at most.
proof fn lemma_one_level(q: Setting, k: int, a: Level, b: Level)
    requires
        q.offers_at(k, a),
        q.offers_at(k, b),
    ensures
        a == b,
{
}

/// What a task that is taken up adds.
proof fn lemma_found_push(q: Setting, tasks: Seq<Task>, t: Task)
    ensures
        found(q.index, tasks.push(t), q.slab, q.inside) == taken(
            found(q.index, tasks, q.slab, q.inside),
            match hit(q.index, t, q.slab, q.inside) {
                Some(l) => Some((l, (q.slab)(t.idx))),
                None => None,
            },
        ),
{
    assert(tasks.push(t).drop_last() =~= tasks);
    assert(tasks.push(t).last() == t);
}

/// The country of the preindex.
proof fn lemma_country(q: Setting)
    ensures
        found(
            q.index,
            country_tasks(q.index, q.lng, q.lat),
            q.slab,
            q.inside,
        ) == firsts(q, 1),
{
    let tasks = country_tasks(q.index, q.lng, q.lat);
    reveal_with_fuel(firsts, 2);
    if q.knows_country() {
        let t = Task {
            idx: q.index.country_preindex[coarse_cell(q.lng, q.lat)],
            tier: Tier::Country,
            certain: true,
        };
        assert(tasks =~= Seq::empty().push(t));
        assert(q.offers_at(0, Level::Country));
        lemma_found_push(q, Seq::empty(), t);
        let l = choose|l: Level| #[trigger] q.offers_at(0, l);
        assert(l == Level::Country);
    } else {
        assert forall|l: Level| !#[trigger] q.offers_at(0, l) by {}
        assert(tasks =~= Seq::empty());
    }
}

/// The level of a coarse division, as its subtype says.
proof fn lemma_coarse_level(subtype: u8, level: Level)
    ensures
        coarse_level(subtype) == Some(level) <==> is_coarse(subtype, level),
{
}

proof fn lemma_fine_level(subtype: u8, level: Level)
    ensures
        fine_level(subtype) == Some(level) <==> is_fine(subtype, level),
{
}

/// The offer at a coarse place.
proof fn lemma_coarse_offer(q: Setting, i: int)
    requires
        0 <= i < q.coarse().len(),
    ensures
        ({
            let idx = q.coarse()[i];
            let subtype = q.index.subtypes[idx as int];
            let holds = q.is_sole(q.coarse()) || (q.is_found(idx) && !(q.knows_country() && (subtype
                == 0 || subtype == 1)));
            offer(q, 1 + i) == match coarse_level(subtype) {
                Some(l) => if holds {
                    Some((l, (q.slab)(idx)))
                } else {
                    None
                },
                None => None,
            }
        }),
{
    let idx = q.coarse()[i];
    let subtype = q.index.subtypes[idx as int];
    assert forall|l: Level| #[trigger] q.offers_at(1 + i, l) implies coarse_level(subtype) == Some(
        l,
    ) by {
        lemma_coarse_level(subtype, l);
    }
    if let Some(l) = coarse_level(subtype) {
        lemma_coarse_level(subtype, l);
        assert(q.offers_at(1 + i, l) <==> q.coarse_holds(i, l));
    }
}

/// The offer at a fine place.
proof fn lemma_fine_offer(q: Setting, i: int)
    requires
        0 <= i < q.fine().len(),
    ensures
        ({
            let idx = q.fine()[i];
            offer(q, 1 + q.coarse().len() + i) == match fine_level(q.index.subtypes[idx as int]) {
                Some(l) => if q.is_sole(q.fine()) || q.is_found(idx) {
                    Some((l, (q.slab)(idx)))
                } else {
                    None
                },
                None => None,
            }
        }),
{
    let idx = q.fine()[i];
    let subtype = q.index.subtypes[idx as int];
    let k = 1 + q.coarse().len() + i;
    assert forall|l: Level| #[trigger] q.offers_at(k, l) implies fine_level(subtype) == Some(l) by {
        lemma_fine_level(subtype, l);
    }
    if let Some(l) = fine_level(subtype) {
        lemma_fine_level(subtype, l);
        assert(q.offers_at(k, l) <==> q.fine_holds(i, l));
    }
}

/// Tasks of a tier that are not skipped and whose box holds the point, among the
/// first `n` candidates.
proof fn lemma_coarse_checked(q: Setting, before: Seq<Task>, n: nat)
    requires
        n <= q.coarse().len(),
        !q.is_sole(q.coarse()),
        found(q.index, before, q.slab, q.inside) == firsts(q, 1),
    ensures
        ({
            let list = q.coarse().take(n as int);
            let skipped = skipped_countries(q.index, list, q.knows_country());
            found(
                q.index,
                before + checked_tasks(
                    selected(q.index.bboxes, list, skipped, q.lng, q.lat),
                    Tier::Coarse,
                ),
                q.slab,
                q.inside,
            ) == firsts(q, 1 + n)
        }),
    decreases n,
{
    let list = q.coarse().take(n as int);
    let skipped = skipped_countries(q.index, list, q.knows_country());
    let kept = selected(q.index.bboxes, list, skipped, q.lng, q.lat);
    if n == 0 {
        assert(before + checked_tasks(kept, Tier::Coarse) =~= before);
    } else {
        let m = (n - 1) as nat;
        let fewer = q.coarse().take(m as int);
        let idx = q.coarse()[m as int];
        let t = Task { idx, tier: Tier::Coarse, certain: false };
        lemma_coarse_checked(q, before, m);
        lemma_coarse_offer(q, m as int);
        assert(list.drop_last() =~= fewer);
        assert(skipped.drop_last() =~= skipped_countries(q.index, fewer, q.knows_country()));
        let kept_before = selected(q.index.bboxes, fewer, skipped.drop_last(), q.lng, q.lat);
        let so_far = before + checked_tasks(kept_before, Tier::Coarse);
        if !skipped.last() && in_bbox(q.index.bboxes[idx as int], q.lng, q.lat) {
            assert(kept == kept_before.push(idx));
            assert(before + checked_tasks(kept, Tier::Coarse) =~= so_far.push(t));
            lemma_found_push(q, so_far, t);
        } else {
            assert(kept == kept_before);
        }
    }
}

proof fn lemma_fine_checked(q: Setting, before: Seq<Task>, n: nat)
    requires
        n <= q.fine().len(),
        !q.is_sole(q.fine()),
        found(q.index, before, q.slab, q.inside) == firsts(q, 1 + q.coarse().len()),
    ensures
        ({
            let list = q.fine().take(n as int);
            let skipped = Seq::new(n, |i: int| false);
            found(
                q.index,
                before + checked_tasks(
                    selected(q.index.bboxes, list, skipped, q.lng, q.lat),
                    Tier::Fine,
                ),
                q.slab,
                q.inside,
            ) == firsts(q, 1 + q.coarse().len() + n)
        }),
    decreases n,
{
    let list = q.fine().take(n as int);
    let skipped = Seq::new(n, |i: int| false);
    let kept = selected(q.index.bboxes, list, skipped, q.lng, q.lat);
    if n == 0 {
        assert(before + checked_tasks(kept, Tier::Fine) =~= before);
    } else {
        let m = (n - 1) as nat;
        let fewer = q.fine().take(m as int);
        let idx = q.fine()[m as int];
        let t = Task { idx, tier: Tier::Fine, certain: false };
        lemma_fine_checked(q, before, m);
        lemma_fine_offer(q, m as int);
        assert(list.drop_last() =~= fewer);
        assert(skipped.drop_last() =~= Seq::new(m, |i: int| false));
        let kept_before = selected(q.index.bboxes, fewer, skipped.drop_last(), q.lng, q.lat);
        let so_far = before + checked_tasks(kept_before, Tier::Fine);
        if in_bbox(q.index.bboxes[idx as int], q.lng, q.lat) {
            assert(kept == kept_before.push(idx));
            assert(before + checked_tasks(kept, Tier::Fine) =~= so_far.push(t));
            lemma_found_push(q, so_far, t);
        } else {
            assert(kept == kept_before);
        }
    }
}

/// The plan of a query finds the first offers for their levels.
proof fn lemma_plan_finds_firsts(q: Setting)
    ensures
        found(q.index, plan(q.index, q.lng, q.lat), q.slab, q.inside) == firsts(
            q,
            q.places(),
        ),
{
    let countries = country_tasks(q.index, q.lng, q.lat);
    let coarse = q.coarse();
    let fine = q.fine();
    let known = countries.len() > 0;
    assert(known == q.knows_country());
    assert(coarse == listed(q.index.grid_coarse, coarse_cell(q.lng, q.lat)));
    assert(fine == listed(q.index.grid_fine, fine_cell(q.lng, q.lat)));
    let coarse_tasks = tier_tasks(
        q.index,
        coarse,
        skipped_countries(q.index, coarse, known),
        Tier::Coarse,
        q.lng,
        q.lat,
    );
    let no_fine_skipped = Seq::new(fine.len(), |i: int| false);
    let fine_tasks = tier_tasks(q.index, fine, no_fine_skipped, Tier::Fine, q.lng, q.lat);
    lemma_country(q);
    let upto = countries + coarse_tasks;
    assert(found(q.index, upto, q.slab, q.inside) == firsts(q, 1 + coarse.len())) by {
        if q.is_sole(coarse) {
            let t = Task { idx: coarse[0], tier: Tier::Coarse, certain: true };
            assert(upto =~= countries.push(t));
            lemma_found_push(q, countries, t);
            lemma_coarse_offer(q, 0);
        } else {
            lemma_coarse_checked(q, countries, coarse.len());
            assert(coarse.take(coarse.len() as int) =~= coarse);
        }
    }
    if q.is_sole(fine) {
        let t = Task { idx: fine[0], tier: Tier::Fine, certain: true };
        assert(upto + fine_tasks =~= upto.push(t));
        lemma_found_push(q, upto, t);
        lemma_fine_offer(q, 0);
    } else {
        lemma_fine_checked(q, upto, fine.len());
        assert(fine.take(fine.len() as int) =~= fine);
    }
}

/// The match is the first offer for its level, at one of the first `n` places.
spec fn stems(q: Setting, n: int, m: (Level, Seq<u8>)) -> bool {
    exists|k: int| k < n && #[trigger] q.offers_first(k, m.0) && m.1 == (q.slab)(q.division_at(k))
}

/// What the first offers among the first `n` places are.
proof fn lemma_firsts(q: Setting, n: nat)
    requires
        n <= q.places(),
    ensures
        forall|l: Level| #[trigger]
            has_level(firsts(q, n), l) <==> exists|k: int|
                k < n && #[trigger] q.offers_first(k, l),
        forall|a: int|
            0 <= a < firsts(q, n).len() ==> stems(q, n as int, #[trigger] firsts(q, n)[a]),
        forall|a: int, b: int, j: int, k: int|
            0 <= a < b < firsts(q, n).len() && #[trigger] q.offers_first(j, firsts(q, n)[a].0)
                && #[trigger] q.offers_first(k, firsts(q, n)[b].0) ==> j < k,
    decreases n,
{
    if n > 0 {
        let m = (n - 1) as nat;
        lemma_firsts(q, m);
        let before = firsts(q, m);
        let all = firsts(q, n);
        let size = before.len() as int;
        match offer(q, m as int) {
            None => {
                assert forall|l: Level| !#[trigger] q.offers_at(m as int, l) by {}
                assert forall|l: Level| #[trigger] has_level(all, l) <==> exists|k: int|
                    k < n && #[trigger] q.offers_first(k, l) by {
                    if exists|k: int| k < n && #[trigger] q.offers_first(k, l) {
                        let k = choose|k: int| k < n && #[trigger] q.offers_first(k, l);
                        assert(k < m);
                    }
                }
                assert forall|a: int| 0 <= a < all.len() implies stems(
                    q,
                    n as int,
                    #[trigger] all[a],
                ) by {
                    assert(stems(q, m as int, before[a]));
                    let k = choose|k: int|
                        k < m && #[trigger] q.offers_first(k, before[a].0) && before[a].1 == (
                        q.slab)(q.division_at(k));
                    assert(q.offers_first(k, all[a].0));
                }
            },
            Some((l0, chunk)) => {
                assert(q.offers_at(m as int, l0));
                assert(chunk == (q.slab)(q.division_at(m as int)));
                lemma_new_offer(q, n, l0);
            },
        }
    }
}

/// The step of [`lemma_firsts`] where the last place offers a chunk.
proof fn lemma_new_offer(q: Setting, n: nat, l0: Level)
    requires
        0 < n <= q.places(),
        offer(q, n - 1) == Some((l0, (q.slab)(q.division_at(n - 1)))),
        q.offers_at(n - 1, l0),
        forall|l: Level| #[trigger]
            has_level(firsts(q, (n - 1) as nat), l) <==> exists|k: int|
                k < n - 1 && #[trigger] q.offers_first(k, l),
        forall|a: int|
            0 <= a < firsts(q, (n - 1) as nat).len() ==> stems(
                q,
                n - 1,
                #[trigger] firsts(q, (n - 1) as nat)[a],
            ),
        forall|a: int, b: int, j: int, k: int|
            0 <= a < b < firsts(q, (n - 1) as nat).len() && #[trigger] q.offers_first(
                j,
                firsts(q, (n - 1) as nat)[a].0,
            ) && #[trigger] q.offers_first(k, firsts(q, (n - 1) as nat)[b].0) ==> j < k,
    ensures
        forall|l: Level| #[trigger]
            has_level(firsts(q, n), l) <==> exists|k: int|
                k < n && #[trigger] q.offers_first(k, l),
        forall|a: int|
            0 <= a < firsts(q, n).len() ==> stems(q, n as int, #[trigger] firsts(q, n)[a]),
        forall|a: int, b: int, j: int, k: int|
            0 <= a < b < firsts(q, n).len() && #[trigger] q.offers_first(j, firsts(q, n)[a].0)
                && #[trigger] q.offers_first(k, firsts(q, n)[b].0) ==> j < k,
{
    let m = (n - 1) as nat;
    let before = firsts(q, m);
    let all = firsts(q, n);
    let size = before.len() as int;
    let isnew = !has_level(before, l0);
    assert(isnew <==> q.offers_first(m as int, l0)) by {
        if isnew {
            assert forall|j: int| 0 <= j < m implies !#[trigger] q.offers_at(j, l0) by {
                if q.offers_at(j, l0) {
                    lemma_some_first(q, j, l0);
                }
            }
        } else {
            let k = choose|k: int| k < m && #[trigger] q.offers_first(k, l0);
            assert(q.offers_at(k, l0));
        }
    }
    assert forall|l: Level| #[trigger] has_level(all, l) <==> exists|k: int|
        k < n && #[trigger] q.offers_first(k, l) by {
        if has_level(all, l) {
            let a = choose|a: int| 0 <= a < all.len() && (#[trigger] all[a]).0 == l;
            if a < size {
                assert(before[a].0 == l);
                assert(has_level(before, l));
            }
        }
        if exists|k: int| k < n && #[trigger] q.offers_first(k, l) {
            let k = choose|k: int| k < n && #[trigger] q.offers_first(k, l);
            if k == m {
                lemma_one_level(q, k, l, l0);
                assert(all[size].0 == l);
            } else {
                assert(has_level(before, l));
                let a = choose|a: int| 0 <= a < before.len() && (#[trigger] before[a]).0 == l;
                assert(all[a].0 == l);
            }
        }
    }
    assert forall|a: int| 0 <= a < all.len() implies stems(q, n as int, #[trigger] all[a]) by {
        if a < size {
            assert(stems(q, m as int, before[a]));
            let k = choose|k: int|
                k < m && #[trigger] q.offers_first(k, before[a].0) && before[a].1 == (q.slab)(
                    q.division_at(k),
                );
            assert(q.offers_first(k, all[a].0));
        } else {
            assert(q.offers_first(m as int, all[a].0));
        }
    }
    assert forall|a: int, b: int, j: int, k: int|
        0 <= a < b < all.len() && #[trigger] q.offers_first(j, all[a].0)
            && #[trigger] q.offers_first(k, all[b].0) implies j < k by {
        assert(all[a] == before[a]);
        if b < size {
            assert(all[b] == before[b]);
            assert(q.offers_first(j, before[a].0) && q.offers_first(k, before[b].0));
        } else {
            assert(stems(q, m as int, before[a]));
            let i = choose|i: int|
                i < m && #[trigger] q.offers_first(i, before[a].0) && before[a].1 == (q.slab)(
                    q.division_at(i),
                );
            lemma_first_is_one(q, i, j, all[a].0);
            lemma_first_is_one(q, m as int, k, l0);
        }
    }
}

proof fn lemma_first_is_one(q: Setting, j: int, k: int, level: Level)
    requires
        q.offers_first(j, level),
        q.offers_first(k, level),
    ensures
        j == k,
{
    assert(q.offers_at(j, level) && q.offers_at(k, level));
}

/// Where a place offers a chunk for a level, some place is the first that does.
proof fn lemma_some_first(q: Setting, j: int, level: Level)
    requires
        0 <= j < q.places(),
        q.offers_at(j, level),
    ensures
        exists|k: int| k <= j && #[trigger] q.offers_first(k, level),
    decreases j,
{
    if forall|i: int| 0 <= i < j ==> !#[trigger] q.offers_at(i, level) {
        assert(q.offers_first(j, level));
    } else {
        let i = choose|i: int| 0 <= i < j && #[trigger] q.offers_at(i, level);
        lemma_some_first(q, i, level);
    }
}

/// A completed query matches a level exactly if some place offers a chunk for
/// it: the preindex for the country, a candidate of the coarse cell whose
/// subtype is that of a country, dependency, region, macro region or macro
/// county, or a candidate of the fine cell whose subtype is that of a county,
/// local administration or locality.
pub proof fn law_matched_levels(q: Setting, level: Level)
    requires
        answerable(q.index, q.lng, q.lat),
    ensures
        (exists|a: int| 0 <= a < q.matched().len() && (#[trigger] q.matched()[a]).0 == level)
            <==> exists|k: int| 0 <= k < q.places() && #[trigger] q.offers_at(k, level),
{
    law_query_finds_all(q.index, q.lng, q.lat, q.slab, q.inside);
    lemma_plan_finds_firsts(q);
    lemma_firsts(q, q.places());
    let all = firsts(q, q.places());
    assert(has_level(all, level) <==> exists|k: int|
        k < q.places() && #[trigger] q.offers_first(k, level));
    if exists|k: int| 0 <= k < q.places() && #[trigger] q.offers_at(k, level) {
        let k = choose|k: int| 0 <= k < q.places() && #[trigger] q.offers_at(k, level);
        lemma_some_first(q, k, level);
    }
    if has_level(all, level) {
        let k = choose|k: int| k < q.places() && #[trigger] q.offers_first(k, level);
        assert(q.offers_at(k, level));
    }
}

/// Every match of a completed query is the chunk of the first place that offers
/// one for the level.
pub proof fn law_match_is_first_offer(q: Setting, a: int, k: int)
    requires
        answerable(q.index, q.lng, q.lat),
        0 <= a < q.matched().len(),
        0 <= k < q.places(),
        q.offers_at(k, q.matched()[a].0),
        forall|j: int| 0 <= j < k ==> !#[trigger] q.offers_at(j, q.matched()[a].0),
    ensures
        q.matched()[a].1 == (q.slab)(q.division_at(k)),
{
    law_query_finds_all(q.index, q.lng, q.lat, q.slab, q.inside);
    lemma_plan_finds_firsts(q);
    let n = q.places();
    lemma_firsts(q, n);
    assert(q.matched() == firsts(q, n));
    let level = q.matched()[a].0;
    assert(stems(q, n as int, firsts(q, n)[a]));
    let i = choose|i: int|
        i < n && #[trigger] q.offers_first(i, firsts(q, n)[a].0) && firsts(q, n)[a].1 == (q.slab)(
            q.division_at(i),
        );
    assert(q.offers_first(k, level));
    lemma_first_is_one(q, i, k, level);
}

/// The matches of a completed query stand in the order of the places that offer
/// them, and no level occurs twice.
pub proof fn law_matches_keep_order(q: Setting, a: int, b: int, j: int, k: int)
    requires
        answerable(q.index, q.lng, q.lat),
        0 <= a < b < q.matched().len(),
        q.offers_first(j, q.matched()[a].0),
        q.offers_first(k, q.matched()[b].0),
    ensures
        j < k,
        q.matched()[a].0 != q.matched()[b].0,
{
    law_query_finds_all(q.index, q.lng, q.lat, q.slab, q.inside);
    lemma_plan_finds_firsts(q);
    lemma_firsts(q, q.places());
    assert(q.matched() == firsts(q, q.places()));
    if q.matched()[a].0 == q.matched()[b].0 {
        lemma_first_is_one(q, j, k, q.matched()[a].0);
    }
}

/// A query can be answered exactly if every division that the index names for
/// the point has a subtype, a box and a place in the slab.
pub proof fn law_answerable(q: Setting)
    requires
        q.index.well_formed(),
    ensures
        answerable(q.index, q.lng, q.lat) <==> {
            &&& q.knows_country() ==> q.index.country_preindex[coarse_cell(q.lng, q.lat)]
                < q.index.subtypes.len()
            &&& forall|i: int|
                0 <= i < q.coarse().len() ==> #[trigger] q.coarse()[i] < q.index.subtypes.len()
            &&& forall|i: int|
                0 <= i < q.fine().len() ==> #[trigger] q.fine()[i] < q.index.subtypes.len()
        },
{
    assert(q.coarse() == listed(q.index.grid_coarse, coarse_cell(q.lng, q.lat)));
    assert(q.fine() == listed(q.index.grid_fine, fine_cell(q.lng, q.lat)));
    if answerable(q.index, q.lng, q.lat) {
        assert forall|i: int| 0 <= i < q.coarse().len() implies #[trigger] q.coarse()[i]
            < q.index.subtypes.len() by {
            assert(has_division(
                q.index,
                listed(q.index.grid_coarse, coarse_cell(q.lng, q.lat))[i],
            ));
        }
        assert forall|i: int| 0 <= i < q.fine().len() implies #[trigger] q.fine()[i]
            < q.index.subtypes.len() by {
            assert(has_division(q.index, listed(q.index.grid_fine, fine_cell(q.lng, q.lat))[i]));
        }
    }
}

/// A query starts with nothing matched, at the first of its tasks.
pub proof fn law_query_starts_at_the_front(q: Setting)
    ensures
        ({
            let p = Progress::start(q.index, q.lng, q.lat);
            p.next == 0 && p.matched.len() == 0 && p.index == q.index && p.tasks == plan(
                q.index,
                q.lng,
                q.lat,
            )
        }),
{
    let p = Progress::start(q.index, q.lng, q.lat);
    if p.tasks.len() > 0 {
        assert(!passed_over(p.tasks[0], p.done));
    }
}

/// A chunk is only fetched for the country of the preindex, for the only
/// candidate of a tier, or for a check; and it is only checked where the box of
/// the division holds the point, and a country or dependency only where the
/// preindex gave no country.
pub proof fn law_only_needed_chunks_are_planned(q: Setting, i: int)
    requires
        0 <= i < plan(q.index, q.lng, q.lat).len(),
    ensures
        ({
            let t = plan(q.index, q.lng, q.lat)[i];
            let subtype = q.index.subtypes[t.idx as int];
            let in_box = in_bbox(q.index.bboxes[t.idx as int], q.lng, q.lat);
            match t.tier {
                Tier::Country => i == 0 && t.certain && q.knows_country() && t.idx
                    == q.index.country_preindex[coarse_cell(q.lng, q.lat)],
                Tier::Coarse => q.coarse().contains(t.idx) && (t.certain <==> q.is_sole(
                    q.coarse(),
                )) && (!t.certain ==> in_box && !(q.knows_country() && (subtype == 0 || subtype
                    == 1))),
                Tier::Fine => q.fine().contains(t.idx) && (t.certain <==> q.is_sole(q.fine())) && (
                !t.certain ==> in_box),
            }
        }),
        plan(q.index, q.lng, q.lat).len() <= q.places(),
{
    let countries = country_tasks(q.index, q.lng, q.lat);
    let coarse = q.coarse();
    let fine = q.fine();
    assert(coarse == listed(q.index.grid_coarse, coarse_cell(q.lng, q.lat)));
    assert(fine == listed(q.index.grid_fine, fine_cell(q.lng, q.lat)));
    let known = countries.len() > 0;
    let skipped = skipped_countries(q.index, coarse, known);
    let none = Seq::new(fine.len(), |i: int| false);
    let a = tier_tasks(q.index, coarse, skipped, Tier::Coarse, q.lng, q.lat);
    let b = tier_tasks(q.index, fine, none, Tier::Fine, q.lng, q.lat);
    let t = plan(q.index, q.lng, q.lat)[i];
    law_selected_members(q.index.bboxes, coarse, skipped, q.lng, q.lat, t.idx);
    law_selected_members(q.index.bboxes, fine, none, q.lng, q.lat, t.idx);
    if i < countries.len() {
        assert(t == countries[i]);
    } else if i < countries.len() + a.len() {
        assert(t == a[i - countries.len()]);
        if q.is_sole(coarse) {
            assert(coarse[0] == t.idx);
        } else {
            let kept = selected(q.index.bboxes, coarse, skipped, q.lng, q.lat);
            assert(kept[i - countries.len()] == t.idx);
            let j = choose|j: int|
                0 <= j < coarse.len() && #[trigger] coarse[j] == t.idx && !skipped[j];
            assert(coarse[j] == t.idx);
        }
    } else {
        let k = i - countries.len() - a.len();
        assert(t == b[k]);
        if q.is_sole(fine) {
            assert(fine[0] == t.idx);
        } else {
            let kept = selected(q.index.bboxes, fine, none, q.lng, q.lat);
            assert(kept[k] == t.idx);
            let j = choose|j: int|
                0 <= j < fine.len() && #[trigger] fine[j] == t.idx && !none[j];
            assert(fine[j] == t.idx);
        }
    }
}

/// There is a match for the level.
pub open spec fn has_match(p: Progress, level: Level) -> bool {
    exists|i: int| 0 <= i < p.matched.len() && (#[trigger] p.matched[i]).0 == level
}

/// There is a match for every level that a tier stands for.
pub open spec fn tier_is_matched(p: Progress, tier: Tier) -> bool {
    match tier {
        Tier::Country => has_match(p, Level::Country),
        Tier::Coarse => has_match(p, Level::Country) && has_match(p, Level::Region) && has_match(
            p,
            Level::County,
        ),
        Tier::Fine => has_match(p, Level::County) && has_match(p, Level::LocalAdmin) && has_match(
            p,
            Level::Locality,
        ),
    }
}

/// After a chunk the next task is taken that needs no check, or whose tier still
/// lacks a match for a level; those before it are left out.
pub proof fn law_next_chunk(p: Progress, chunk: Seq<u8>, inside: bool)
    requires
        p.consistent(),
        p.next < p.tasks.len(),
    ensures
        ({
            let r = p.after(chunk, inside);
            &&& p.next < r.next <= p.tasks.len()
            &&& r.tasks == p.tasks
            &&& r.index == p.index
            &&& r.next < p.tasks.len() ==> p.tasks[r.next].certain || !tier_is_matched(
                r,
                p.tasks[r.next].tier,
            )
            &&& forall|i: int|
                p.next < i < r.next ==> !(#[trigger] p.tasks[i]).certain && tier_is_matched(
                    r,
                    p.tasks[i].tier,
                )
        }),
{
    let r = p.after(chunk, inside);
    lemma_after_consistent(p, chunk, inside);
    lemma_settle(p.tasks, p.next + 1, r.done);
    assert forall|l: Level| #[trigger] r.done.holds(l) <==> has_match(r, l) by {}
    assert(r.done.holds(Level::Country) == r.done.country);
    assert(r.done.holds(Level::Region) == r.done.region);
    assert(r.done.holds(Level::County) == r.done.county);
    assert(r.done.holds(Level::LocalAdmin) == r.done.local_admin);
    assert(r.done.holds(Level::Locality) == r.done.locality);
}

/// What a chunk adds: a match for the level of its division, where the chunk
/// needs no check or holds the point, and the level has no match yet. Nothing
/// else changes among the matches.
pub proof fn law_match_of_a_chunk(p: Progress, chunk: Seq<u8>, inside: bool, level: Level)
    requires
        p.consistent(),
        p.next < p.tasks.len(),
    ensures
        ({
            let t = p.tasks[p.next];
            let subtype = p.index.subtypes[t.idx as int];
            let is_for = match t.tier {
                Tier::Country => level == Level::Country,
                Tier::Coarse => is_coarse(subtype, level),
                Tier::Fine => is_fine(subtype, level),
            };
            let any = match t.tier {
                Tier::Country => true,
                Tier::Coarse => subtype <= 4,
                Tier::Fine => 5 <= subtype <= 7,
            };
            let r = p.after(chunk, inside);
            &&& is_for && (t.certain || inside) && !has_match(p, level) ==> r.matched
                == p.matched.push((level, chunk))
            &&& is_for && has_match(p, level) ==> r.matched == p.matched
            &&& !any || !(t.certain || inside) ==> r.matched == p.matched
        }),
{
    let t = p.tasks[p.next];
    let subtype = p.index.subtypes[t.idx as int];
    lemma_coarse_level(subtype, level);
    lemma_fine_level(subtype, level);
    assert(p.done.holds(level) <==> has_match(p, level));
}

} // verus!
