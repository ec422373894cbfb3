//! Collecting the divisions that hold a point.
//!
//! The chunk of a division has to be fetched before the division can be
//! checked, and each check decides what is fetched next. [`Collector`] makes
//! the decisions: it names the next chunk to fetch, takes the chunk together
//! with whether it holds the point, and in the end hands out the matches.

use vstd::prelude::*;

use crate::finder::{
    coarse_cell, fine_cell, has_division, inner_point, law_selected_members, listed, selected,
    XsFinder, SUBTYPE_COUNTRY, SUBTYPE_DEPENDENCY,
};
use crate::ieee::{Double, Number};
use crate::levels::{
    coarse_level, coarse_level_for, filled, fine_level, fine_level_for, unfilled, Level, LevelSet,
};
use crate::xsci::IndexView;

verus! {

/// A division that holds the point, with its chunk.
pub struct MatchedDiv {
    pub level: Level,
    pub chunk: Vec<u8>,
}

impl View for MatchedDiv {
    type V = (Level, Seq<u8>);

    open spec fn view(&self) -> (Level, Seq<u8>) {
        (self.level, self.chunk@)
    }
}

/// Where a candidate comes from.
#[derive(Clone, Copy, Debug, PartialEq, Eq, Structural)]
pub enum Tier {
    /// The country preindex.
    Country,
    /// The coarse grid: countries, dependencies, regions, macro counties.
    Coarse,
    /// The fine grid: counties, local administrations, localities.
    Fine,
}

/// A candidate whose chunk may have to be fetched.
#[derive(Clone, Copy, Debug, PartialEq, Eq, Structural)]
pub struct Task {
    pub idx: u32,
    pub tier: Tier,
    /// The division counts as holding the point without a check.
    pub certain: bool,
}

/// A chunk to fetch from the slab.
#[derive(Clone, Copy, Debug, PartialEq, Eq, Structural)]
pub struct Fetch {
    pub offset: u64,
    pub length: u64,
    /// Whether the chunk has to be checked for the point.
    pub check: bool,
}

/// The index has every division that it names for the point.
pub open spec fn answerable(index: IndexView, lng: Number, lat: Number) -> bool {
    &&& forall|i: int|
        #![trigger listed(index.grid_coarse, coarse_cell(lng, lat))[i]]
        0 <= i < listed(index.grid_coarse, coarse_cell(lng, lat)).len() ==> has_division(
            index,
            listed(index.grid_coarse, coarse_cell(lng, lat))[i],
        )
    &&& forall|i: int|
        #![trigger listed(index.grid_fine, fine_cell(lng, lat))[i]]
        0 <= i < listed(index.grid_fine, fine_cell(lng, lat)).len() ==> has_division(
            index,
            listed(index.grid_fine, fine_cell(lng, lat))[i],
        )
    &&& index.country_preindex.contains_key(coarse_cell(lng, lat)) ==> has_division(
        index,
        index.country_preindex[coarse_cell(lng, lat)],
    )
}

/// Tasks of one tier for divisions that have to be checked.
pub open spec fn checked_tasks(indices: Seq<u32>, tier: Tier) -> Seq<Task> {
    indices.map_values(|idx: u32| Task { idx, tier, certain: false })
}

/// The country that the preindex gives for the point needs no check.
pub open spec fn country_tasks(index: IndexView, lng: Number, lat: Number) -> Seq<Task> {
    let cell = coarse_cell(lng, lat);
    if index.country_preindex.contains_key(cell) {
        seq![Task { idx: index.country_preindex[cell], tier: Tier::Country, certain: true }]
    } else {
        Seq::empty()
    }
}

/// The tasks for the candidates of a tier. A single candidate needs no check
/// where the point is well away from the antimeridian and the poles; else those
/// are checked that are not skipped and whose bounding box holds the point.
pub open spec fn tier_tasks(
    index: IndexView,
    candidates: Seq<u32>,
    skipped: Seq<bool>,
    tier: Tier,
    lng: Number,
    lat: Number,
) -> Seq<Task> {
    if candidates.len() == 1 && inner_point(lng, lat) {
        seq![Task { idx: candidates[0], tier, certain: true }]
    } else {
        checked_tasks(selected(index.bboxes, candidates, skipped, lng, lat), tier)
    }
}

/// Which candidates of the coarse tier are skipped: countries and dependencies,
/// once the preindex has given the country.
pub open spec fn skipped_countries(index: IndexView, candidates: Seq<u32>, known: bool) -> Seq<
    bool,
> {
    Seq::new(
        candidates.len(),
        |i: int|
            known && (index.subtypes[candidates[i] as int] == SUBTYPE_COUNTRY
                || index.subtypes[candidates[i] as int] == SUBTYPE_DEPENDENCY),
    )
}

/// All tasks for a point, in the order in which they are taken up.
pub open spec fn plan(index: IndexView, lng: Number, lat: Number) -> Seq<Task> {
    let countries = country_tasks(index, lng, lat);
    let coarse = listed(index.grid_coarse, coarse_cell(lng, lat));
    let fine = listed(index.grid_fine, fine_cell(lng, lat));
    let no_fine_skipped = Seq::new(fine.len(), |i: int| false);
    countries + tier_tasks(
        index,
        coarse,
        skipped_countries(index, coarse, countries.len() > 0),
        Tier::Coarse,
        lng,
        lat,
    ) + tier_tasks(index, fine, no_fine_skipped, Tier::Fine, lng, lat)
}

/// Every level that the tier can fill is filled.
pub open spec fn tier_full(tier: Tier, done: LevelSet) -> bool {
    match tier {
        Tier::Country => done.country,
        Tier::Coarse => done.coarse_full(),
        Tier::Fine => done.fine_full(),
    }
}

/// The task is passed over: it needs a check, and its tier has nothing left to
/// fill.
pub open spec fn passed_over(task: Task, done: LevelSet) -> bool {
    !task.certain && tier_full(task.tier, done)
}

/// The first task from `next` on that is not passed over.
pub open spec fn settle(tasks: Seq<Task>, next: int, done: LevelSet) -> int
    decreases tasks.len() - next,
{
    if next < tasks.len() && passed_over(tasks[next], done) {
        settle(tasks, next + 1, done)
    } else {
        next
    }
}

/// The level that a division which holds the point fills.
pub open spec fn task_level(index: IndexView, task: Task) -> Option<Level> {
    match task.tier {
        Tier::Country => Some(Level::Country),
        Tier::Coarse => coarse_level(index.subtypes[task.idx as int]),
        Tier::Fine => fine_level(index.subtypes[task.idx as int]),
    }
}

/// The level that a task newly fills, given whether the chunk holds the point.
pub open spec fn gained(index: IndexView, task: Task, done: LevelSet, inside: bool) -> Option<
    Level,
> {
    if task.certain || inside {
        unfilled(task_level(index, task), done)
    } else {
        None
    }
}

/// How far a query has come.
#[verifier::ext_equal]
pub ghost struct Progress {
    pub index: IndexView,
    pub tasks: Seq<Task>,
    /// The task whose chunk is wanted; the number of tasks at the end.
    pub next: int,
    pub done: LevelSet,
    pub matched: Seq<(Level, Seq<u8>)>,
}

impl Progress {
    /// At the beginning of a query.
    pub open spec fn start(index: IndexView, lng: Number, lat: Number) -> Progress {
        Progress {
            index,
            tasks: plan(index, lng, lat),
            next: settle(plan(index, lng, lat), 0, LevelSet::none()),
            done: LevelSet::none(),
            matched: Seq::empty(),
        }
    }

    /// A chunk is wanted.
    pub open spec fn pending(self) -> bool {
        self.next < self.tasks.len()
    }

    /// After the wanted chunk has come.
    pub open spec fn after(self, chunk: Seq<u8>, inside: bool) -> Progress {
        let level = gained(self.index, self.tasks[self.next], self.done, inside);
        let done = filled(level, self.done);
        Progress {
            next: settle(self.tasks, self.next + 1, done),
            done,
            matched: match level {
                Some(l) => self.matched.push((l, chunk)),
                None => self.matched,
            },
            ..self
        }
    }

    /// The filled levels are those of the matches, each level has one match,
    /// and the wanted task is not one to pass over.
    pub open spec fn consistent(self) -> bool {
        &&& 0 <= self.next <= self.tasks.len()
        &&& self.pending() ==> !passed_over(self.tasks[self.next], self.done)
        &&& forall|l: Level| #[trigger]
            self.done.holds(l) <==> exists|i: int|
                0 <= i < self.matched.len() && (#[trigger] self.matched[i]).0 == l
        &&& forall|i: int, j: int|
            0 <= i < j < self.matched.len() ==> (#[trigger] self.matched[i]).0 != (
            #[trigger] self.matched[j]).0
        &&& forall|i: int|
            0 <= i < self.tasks.len() ==> has_division(self.index, (#[trigger] self.tasks[i]).idx)
    }
}

/// Moving on stays within the tasks and stops at one not to pass over.
pub proof fn lemma_settle(tasks: Seq<Task>, next: int, done: LevelSet)
    requires
        0 <= next <= tasks.len(),
    ensures
        next <= settle(tasks, next, done) <= tasks.len(),
        settle(tasks, next, done) < tasks.len() ==> !passed_over(
            tasks[settle(tasks, next, done)],
            done,
        ),
        forall|i: int| next <= i < settle(tasks, next, done) ==> passed_over(tasks[i], done),
    decreases tasks.len() - next,
{
    if next < tasks.len() && passed_over(tasks[next], done) {
        lemma_settle(tasks, next + 1, done);
    }
}

/// What is selected comes from the candidates.
proof fn lemma_selected_known(
    index: IndexView,
    indices: Seq<u32>,
    skipped: Seq<bool>,
    lng: Number,
    lat: Number,
)
    requires
        forall|i: int| 0 <= i < indices.len() ==> has_division(index, #[trigger] indices[i]),
    ensures
        forall|i: int|
            0 <= i < selected(index.bboxes, indices, skipped, lng, lat).len() ==> has_division(
                index,
                #[trigger] selected(index.bboxes, indices, skipped, lng, lat)[i],
            ),
    decreases indices.len(),
{
    if indices.len() > 0 {
        assert forall|i: int| 0 <= i < indices.drop_last().len() implies has_division(
            index,
            #[trigger] indices.drop_last()[i],
        ) by {
            assert(has_division(index, indices[i]));
        }
        assert(has_division(index, indices[indices.len() - 1]));
        lemma_selected_known(index, indices.drop_last(), skipped.drop_last(), lng, lat);
        let before = selected(index.bboxes, indices.drop_last(), skipped.drop_last(), lng, lat);
        let all = selected(index.bboxes, indices, skipped, lng, lat);
        assert forall|i: int| 0 <= i < all.len() implies has_division(
            index,
            #[trigger] all[i],
        ) by {
            if i < before.len() {
                assert(all[i] == before[i]);
            }
        }
    }
}

/// The state of a query.
pub struct Collector<'a> {
    finder: &'a XsFinder,
    tasks: Vec<Task>,
    next: usize,
    done: LevelSet,
    matched: Vec<MatchedDiv>,
}

impl<'a> View for Collector<'a> {
    type V = Progress;

    closed spec fn view(&self) -> Progress {
        Progress {
            index: self.finder@,
            tasks: self.tasks@,
            next: self.next as int,
            done: self.done,
            matched: self.matched@.map_values(|m: MatchedDiv| m@),
        }
    }
}

/// Appends tasks of one tier for divisions that have to be checked.
fn push_checked(tasks: &mut Vec<Task>, indices: &Vec<u32>, tier: Tier)
    ensures
        final(tasks)@ == old(tasks)@ + checked_tasks(indices@, tier),
{
    let mut i: usize = 0;
    assert(tasks@ =~= tasks@ + checked_tasks(indices@.take(0), tier));
    while i < indices.len()
        invariant
            i <= indices@.len(),
            tasks@ == old(tasks)@ + checked_tasks(indices@.take(i as int), tier),
        decreases indices@.len() - i,
    {
        tasks.push(Task { idx: indices[i], tier, certain: false });
        assert(tasks@ =~= old(tasks)@ + checked_tasks(indices@.take(i + 1), tier));
        i = i + 1;
    }
    assert(indices@.take(indices@.len() as int) =~= indices@);
}

impl XsFinder {
    /// Whether the index has every one of the divisions.
    fn has_divisions(&self, indices: &[u32]) -> (r: bool)
        ensures
            r == forall|i: int|
                0 <= i < indices@.len() ==> has_division(self@, #[trigger] indices@[i]),
    {
        let mut i: usize = 0;
        while i < indices.len()
            invariant
                i <= indices@.len(),
                forall|j: int| 0 <= j < i ==> has_division(self@, #[trigger] indices@[j]),
            decreases indices@.len() - i,
        {
            if !self.knows(indices[i]) {
                assert(!has_division(self@, indices@[i as int]));
                return false;
            }
            i = i + 1;
        }
        true
    }

    /// Whether the index has every division that it names for the point.
    pub fn can_answer(&self, lng: Double, lat: Double) -> (r: bool)
        ensures
            r == answerable(self@, lng.number(), lat.number()),
    {
        let country_known: bool = match self.country_for_cell(lng, lat) {
            Some(idx) => self.knows(idx),
            None => true,
        };
        country_known && self.has_divisions(self.coarse_candidates(lng, lat))
            && self.has_divisions(self.fine_candidates(lng, lat))
    }
}

/// The tasks for the candidates of the coarse tier.
fn push_coarse(tasks: &mut Vec<Task>, finder: &XsFinder, lng: Double, lat: Double, known: bool)
    requires
        answerable(finder@, lng.number(), lat.number()),
    ensures
        ({
            let coarse = listed(finder@.grid_coarse, coarse_cell(lng.number(), lat.number()));
            final(tasks)@ == old(tasks)@ + tier_tasks(
                finder@,
                coarse,
                skipped_countries(finder@, coarse, known),
                Tier::Coarse,
                lng.number(),
                lat.number(),
            )
        }),
{
    let coarse: &[u32] = finder.coarse_candidates(lng, lat);
    if coarse.len() == 1 && XsFinder::can_short_circuit(lng, lat) {
        tasks.push(Task { idx: coarse[0], tier: Tier::Coarse, certain: true });
        assert(tasks@ =~= old(tasks)@ + seq![
            Task { idx: coarse@[0], tier: Tier::Coarse, certain: true },
        ]);
    } else {
        let skip_if = |idx: u32| -> (r: bool)
            requires
                has_division(finder@, idx),
            ensures
                r == (known && (finder@.subtypes[idx as int] == SUBTYPE_COUNTRY
                    || finder@.subtypes[idx as int] == SUBTYPE_DEPENDENCY)),
            {
                if known {
                    let sub: u8 = finder.subtype(idx);
                    sub == SUBTYPE_COUNTRY || sub == SUBTYPE_DEPENDENCY
                } else {
                    false
                }
            };
        let need: Vec<u32> = finder.bbox_filtered(coarse, lng, lat, skip_if);
        proof {
            let skipped = choose|skipped: Seq<bool>|
                skipped.len() == coarse@.len() && (forall|i: int|
                    0 <= i < coarse@.len() ==> call_ensures(
                        skip_if,
                        (coarse@[i],),
                        #[trigger] skipped[i],
                    )) && need@ == #[trigger] selected(
                    finder@.bboxes,
                    coarse@,
                    skipped,
                    lng.number(),
                    lat.number(),
                );
            assert(skipped =~= skipped_countries(finder@, coarse@, known));
        }
        push_checked(tasks, &need, Tier::Coarse);
    }
}

/// The tasks for the candidates of the fine tier.
fn push_fine(tasks: &mut Vec<Task>, finder: &XsFinder, lng: Double, lat: Double)
    requires
        answerable(finder@, lng.number(), lat.number()),
    ensures
        ({
            let fine = listed(finder@.grid_fine, fine_cell(lng.number(), lat.number()));
            final(tasks)@ == old(tasks)@ + tier_tasks(
                finder@,
                fine,
                Seq::new(fine.len(), |i: int| false),
                Tier::Fine,
                lng.number(),
                lat.number(),
            )
        }),
{
    let fine: &[u32] = finder.fine_candidates(lng, lat);
    if fine.len() == 1 && XsFinder::can_short_circuit(lng, lat) {
        tasks.push(Task { idx: fine[0], tier: Tier::Fine, certain: true });
        assert(tasks@ =~= old(tasks)@ + seq![
            Task { idx: fine@[0], tier: Tier::Fine, certain: true },
        ]);
    } else {
        let skip_if = |idx: u32| -> (r: bool)
            ensures
                !r,
            { false };
        let need: Vec<u32> = finder.bbox_filtered(fine, lng, lat, skip_if);
        proof {
            let skipped = choose|skipped: Seq<bool>|
                skipped.len() == fine@.len() && (forall|i: int|
                    0 <= i < fine@.len() ==> call_ensures(
                        skip_if,
                        (fine@[i],),
                        #[trigger] skipped[i],
                    )) && need@ == #[trigger] selected(
                    finder@.bboxes,
                    fine@,
                    skipped,
                    lng.number(),
                    lat.number(),
                );
            assert(skipped =~= Seq::new(fine@.len(), |i: int| false));
        }
        push_checked(tasks, &need, Tier::Fine);
    }
}

/// Every task of the plan is about a division that the index has.
proof fn lemma_plan_known(index: IndexView, lng: Number, lat: Number)
    requires
        answerable(index, lng, lat),
    ensures
        forall|i: int|
            0 <= i < plan(index, lng, lat).len() ==> has_division(
                index,
                (#[trigger] plan(index, lng, lat)[i]).idx,
            ),
{
    let countries = country_tasks(index, lng, lat);
    let coarse = listed(index.grid_coarse, coarse_cell(lng, lat));
    let fine = listed(index.grid_fine, fine_cell(lng, lat));
    lemma_selected_known(
        index,
        coarse,
        skipped_countries(index, coarse, countries.len() > 0),
        lng,
        lat,
    );
    lemma_selected_known(index, fine, Seq::new(fine.len(), |i: int| false), lng, lat);
}

/// The first task from `from` on that is not passed over.
fn first_open(tasks: &Vec<Task>, from: usize, done: LevelSet) -> (r: usize)
    requires
        from <= tasks@.len(),
    ensures
        r == settle(tasks@, from as int, done),
{
    let mut i: usize = from;
    while i < tasks.len()
        invariant
            from <= i <= tasks@.len(),
            settle(tasks@, from as int, done) == settle(tasks@, i as int, done),
        decreases tasks@.len() - i,
    {
        let task: Task = tasks[i];
        let full: bool = match task.tier {
            Tier::Country => done.country,
            Tier::Coarse => done.country && done.region && done.county,
            Tier::Fine => done.county && done.local_admin && done.locality,
        };
        if task.certain || !full {
            return i;
        }
        i = i + 1;
    }
    i
}

impl<'a> Collector<'a> {
    /// Starts a query for a point.
    pub fn new(finder: &'a XsFinder, lng: Double, lat: Double) -> (r: Self)
        requires
            answerable(finder@, lng.number(), lat.number()),
        ensures
            r@ == Progress::start(finder@, lng.number(), lat.number()),
            r@.consistent(),
    {
        let mut tasks: Vec<Task> = Vec::new();
        let country: Option<u32> = finder.country_for_cell(lng, lat);
        if let Some(idx) = country {
            tasks.push(Task { idx, tier: Tier::Country, certain: true });
        }
        assert(tasks@ =~= country_tasks(finder@, lng.number(), lat.number()));
        push_coarse(&mut tasks, finder, lng, lat, country.is_some());
        push_fine(&mut tasks, finder, lng, lat);
        let done = LevelSet::default();
        let next: usize = first_open(&tasks, 0, done);
        let matched: Vec<MatchedDiv> = Vec::new();
        proof {
            lemma_plan_known(finder@, lng.number(), lat.number());
            lemma_settle(tasks@, 0, done);
            assert(matched@.map_values(|m: MatchedDiv| m@) =~= Seq::empty());
        }
        Collector { finder, tasks, next, done, matched }
    }

    /// The chunk to fetch next; none once the query is complete.
    pub fn next_fetch(&self) -> (r: Option<Fetch>)
        requires
            self@.consistent(),
        ensures
            r == if self@.pending() {
                let task = self@.tasks[self@.next];
                Some(
                    Fetch {
                        offset: self@.index.poly_offsets[task.idx as int],
                        length: self@.index.poly_lengths[task.idx as int] as u64,
                        check: !task.certain,
                    },
                )
            } else {
                None
            },
    {
        if self.next < self.tasks.len() {
            let task: Task = self.tasks[self.next];
            let (offset, length) = self.finder.slab_range(task.idx);
            Some(Fetch { offset, length, check: !task.certain })
        } else {
            None
        }
    }

    /// Takes the chunk that was to be fetched, and whether it holds the point;
    /// the latter does not matter for a chunk that needs no check.
    pub fn deliver(&mut self, chunk: Vec<u8>, inside: bool)
        requires
            old(self)@.consistent(),
            old(self)@.pending(),
        ensures
            final(self)@ == old(self)@.after(chunk@, inside),
            final(self)@.consistent(),
            final(self)@.next > old(self)@.next,
    {
        let total: usize = self.tasks.len();
        assert(self.next < total);
        let task: Task = self.tasks[self.next];
        let ghost before = self@;
        if task.certain || inside {
            let level: Option<Level> = match task.tier {
                Tier::Country => if self.done.country {
                    None
                } else {
                    self.done.country = true;
                    Some(Level::Country)
                },
                Tier::Coarse => coarse_level_for(self.finder.subtype(task.idx), &mut self.done),
                Tier::Fine => fine_level_for(self.finder.subtype(task.idx), &mut self.done),
            };
            if let Some(level) = level {
                let ghost earlier = self.matched@;
                let ghost bytes = chunk@;
                self.matched.push(MatchedDiv { level, chunk });
                assert(self.matched@.map_values(|m: MatchedDiv| m@) =~= earlier.map_values(
                    |m: MatchedDiv| m@,
                ).push((level, bytes)));
            }
        }
        self.next = first_open(&self.tasks, self.next + 1, self.done);
        proof {
            lemma_after_consistent(before, chunk@, inside);
        }
    }

    /// The divisions found, in the order in which they were found.
    pub fn finish(self) -> (r: Vec<MatchedDiv>)
        ensures
            r@.map_values(|m: MatchedDiv| m@) == self@.matched,
    {
        self.matched
    }
}

/// A step keeps the filled levels those of the matches, one match for each.
pub proof fn lemma_after_consistent(p: Progress, chunk: Seq<u8>, inside: bool)
    requires
        p.consistent(),
        p.pending(),
    ensures
        p.after(chunk, inside).consistent(),
        p.after(chunk, inside).next > p.next,
{
    let level = gained(p.index, p.tasks[p.next], p.done, inside);
    let done = filled(level, p.done);
    let q = p.after(chunk, inside);
    lemma_settle(p.tasks, p.next + 1, done);
    if let Some(l) = level {
        assert(!p.done.holds(l));
        let n = p.matched.len() as int;
        assert(q.matched[n].0 == l);
        assert forall|m: Level| #[trigger] q.done.holds(m) <==> exists|i: int|
            0 <= i < q.matched.len() && (#[trigger] q.matched[i]).0 == m by {
            if q.done.holds(m) && m != l {
                assert(p.done.holds(m));
                let i = choose|i: int| 0 <= i < p.matched.len() && (#[trigger] p.matched[i]).0 == m;
                assert(q.matched[i].0 == m);
            }
            if exists|i: int| 0 <= i < q.matched.len() && (#[trigger] q.matched[i]).0 == m {
                let i = choose|i: int| 0 <= i < q.matched.len() && (#[trigger] q.matched[i]).0 == m;
                if i < n {
                    assert(p.matched[i].0 == m);
                    assert(p.done.holds(m));
                }
            }
        }
        assert forall|i: int, j: int| 0 <= i < j < q.matched.len() implies (
        #[trigger] q.matched[i]).0 != (#[trigger] q.matched[j]).0 by {
            assert(p.matched[i].0 == q.matched[i].0);
            if j == n {
                assert(p.done.holds(p.matched[i].0));
            } else {
                assert(p.matched[j].0 == q.matched[j].0);
            }
        }
    }
}

/// The level that a task stands for, if its division holds the point: `slab`
/// gives the chunk of a division, `inside` whether a chunk holds the point.
pub open spec fn hit(
    index: IndexView,
    task: Task,
    slab: spec_fn(u32) -> Seq<u8>,
    inside: spec_fn(Seq<u8>) -> bool,
) -> Option<Level> {
    if task.certain || inside(slab(task.idx)) {
        task_level(index, task)
    } else {
        None
    }
}

/// One of the matches is for the level.
pub open spec fn has_level(matched: Seq<(Level, Seq<u8>)>, level: Level) -> bool {
    exists|i: int| 0 <= i < matched.len() && (#[trigger] matched[i]).0 == level
}

/// What there is to find: for each level the first division, in the order of
/// the tasks, that holds the point.
pub open spec fn found(
    index: IndexView,
    tasks: Seq<Task>,
    slab: spec_fn(u32) -> Seq<u8>,
    inside: spec_fn(Seq<u8>) -> bool,
) -> Seq<(Level, Seq<u8>)>
    decreases tasks.len(),
{
    if tasks.len() == 0 {
        Seq::empty()
    } else {
        let before = found(index, tasks.drop_last(), slab, inside);
        match hit(index, tasks.last(), slab, inside) {
            Some(l) => if has_level(before, l) {
                before
            } else {
                before.push((l, slab(tasks.last().idx)))
            },
            None => before,
        }
    }
}

/// A query carried through to its end.
pub open spec fn completed(
    p: Progress,
    slab: spec_fn(u32) -> Seq<u8>,
    inside: spec_fn(Seq<u8>) -> bool,
) -> Progress
    decreases p.tasks.len() - p.next,
    when 0 <= p.next
    via completed_decreases
{
    if p.pending() {
        let chunk = slab(p.tasks[p.next].idx);
        completed(p.after(chunk, inside(chunk)), slab, inside)
    } else {
        p
    }
}

#[via_fn]
proof fn completed_decreases(
    p: Progress,
    slab: spec_fn(u32) -> Seq<u8>,
    inside: spec_fn(Seq<u8>) -> bool,
) {
    if p.pending() {
        let chunk = slab(p.tasks[p.next].idx);
        let level = gained(p.index, p.tasks[p.next], p.done, inside(chunk));
        lemma_settle(p.tasks, p.next + 1, filled(level, p.done));
    }
}

/// A task that is passed over has nothing to add.
proof fn lemma_passed_over_adds_nothing(index: IndexView, task: Task, done: LevelSet)
    requires
        passed_over(task, done),
    ensures
        unfilled(task_level(index, task), done) is None,
{
}

/// Nothing is found among tasks that are passed over.
proof fn lemma_found_over_gap(
    index: IndexView,
    tasks: Seq<Task>,
    slab: spec_fn(u32) -> Seq<u8>,
    inside: spec_fn(Seq<u8>) -> bool,
    from: int,
    to: int,
    done: LevelSet,
)
    requires
        0 <= from <= to <= tasks.len(),
        forall|i: int| from <= i < to ==> passed_over(#[trigger] tasks[i], done),
        forall|l: Level| #[trigger]
            done.holds(l) ==> has_level(found(index, tasks.take(from), slab, inside), l),
    ensures
        found(index, tasks.take(to), slab, inside) == found(index, tasks.take(from), slab, inside),
    decreases to - from,
{
    if from < to {
        lemma_found_over_gap(index, tasks, slab, inside, from, to - 1, done);
        let task = tasks[to - 1];
        lemma_passed_over_adds_nothing(index, task, done);
        assert(tasks.take(to).drop_last() =~= tasks.take(to - 1));
        assert(tasks.take(to).last() == task);
        if let Some(l) = task_level(index, task) {
            assert(done.holds(l));
        }
    }
}

/// The matches so far are what there is to find among the tasks left behind.
proof fn lemma_completed(
    p: Progress,
    slab: spec_fn(u32) -> Seq<u8>,
    inside: spec_fn(Seq<u8>) -> bool,
)
    requires
        p.consistent(),
        p.matched == found(p.index, p.tasks.take(p.next), slab, inside),
    ensures
        completed(p, slab, inside).consistent(),
        !completed(p, slab, inside).pending(),
        completed(p, slab, inside).matched == found(p.index, p.tasks, slab, inside),
    decreases p.tasks.len() - p.next,
{
    if p.pending() {
        let task = p.tasks[p.next];
        let chunk = slab(task.idx);
        let q = p.after(chunk, inside(chunk));
        lemma_after_consistent(p, chunk, inside(chunk));
        lemma_settle(p.tasks, p.next + 1, q.done);
        let upto = p.tasks.take(p.next + 1);
        assert(upto.drop_last() =~= p.tasks.take(p.next));
        assert(upto.last() == task);
        if let Some(l) = hit(p.index, task, slab, inside) {
            assert(p.done.holds(l) <==> has_level(p.matched, l));
        }
        assert(q.matched == found(p.index, upto, slab, inside));
        assert forall|l: Level| #[trigger] q.done.holds(l) implies has_level(
            found(p.index, upto, slab, inside),
            l,
        ) by {
            let i = choose|i: int| 0 <= i < q.matched.len() && (#[trigger] q.matched[i]).0 == l;
            assert(q.matched[i].0 == l);
        }
        lemma_found_over_gap(p.index, p.tasks, slab, inside, p.next + 1, q.next, q.done);
        lemma_completed(q, slab, inside);
    } else {
        assert(p.tasks.take(p.next) =~= p.tasks);
    }
}

/// A query finds all there is to find: passing over the rest of a tier whose
/// levels are filled loses nothing.
pub proof fn law_query_finds_all(
    index: IndexView,
    lng: Number,
    lat: Number,
    slab: spec_fn(u32) -> Seq<u8>,
    inside: spec_fn(Seq<u8>) -> bool,
)
    requires
        answerable(index, lng, lat),
    ensures
        completed(Progress::start(index, lng, lat), slab, inside).matched == found(
            index,
            plan(index, lng, lat),
            slab,
            inside,
        ),
        !completed(Progress::start(index, lng, lat), slab, inside).pending(),
        completed(Progress::start(index, lng, lat), slab, inside).consistent(),
{
    let p = Progress::start(index, lng, lat);
    lemma_plan_known(index, lng, lat);
    lemma_settle(p.tasks, 0, p.done);
    assert(p.consistent());
    assert(p.tasks.take(0) =~= Seq::empty());
    lemma_found_over_gap(index, p.tasks, slab, inside, 0, p.next, p.done);
    assert(p.matched =~= found(index, p.tasks.take(p.next), slab, inside));
    lemma_completed(p, slab, inside);
}

/// The division of the `i`-th task holds the point for the level.
pub open spec fn hits(
    index: IndexView,
    tasks: Seq<Task>,
    slab: spec_fn(u32) -> Seq<u8>,
    inside: spec_fn(Seq<u8>) -> bool,
    i: int,
    level: Level,
) -> bool {
    0 <= i < tasks.len() && hit(index, tasks[i], slab, inside) == Some(level)
}

/// A level has a match exactly if some task's division holds the point for it.
pub proof fn law_every_hit_level_is_matched(
    index: IndexView,
    tasks: Seq<Task>,
    slab: spec_fn(u32) -> Seq<u8>,
    inside: spec_fn(Seq<u8>) -> bool,
    level: Level,
)
    ensures
        has_level(found(index, tasks, slab, inside), level) <==> exists|i: int| #[trigger]
            hits(index, tasks, slab, inside, i, level),
    decreases tasks.len(),
{
    let all = found(index, tasks, slab, inside);
    if tasks.len() > 0 {
        let n = tasks.len() - 1;
        let fewer = tasks.drop_last();
        let before = found(index, fewer, slab, inside);
        law_every_hit_level_is_matched(index, fewer, slab, inside, level);
        if has_level(before, level) {
            let k = choose|k: int| 0 <= k < before.len() && (#[trigger] before[k]).0 == level;
            assert(all[k] == before[k]);
            let i = choose|i: int| #[trigger] hits(index, fewer, slab, inside, i, level);
            assert(hits(index, tasks, slab, inside, i, level));
        } else if hits(index, tasks, slab, inside, n, level) {
            assert(all[before.len() as int].0 == level);
        } else {
            assert forall|k: int| 0 <= k < all.len() implies (#[trigger] all[k]).0 != level by {
                if k < before.len() {
                    assert(all[k] == before[k]);
                }
            }
            assert forall|i: int| !#[trigger] hits(index, tasks, slab, inside, i, level) by {
                if i != n {
                    assert(!hits(index, fewer, slab, inside, i, level));
                }
            }
        }
    }
}

/// The match for a level is the first division that holds the point for it.
pub proof fn law_first_hit_counts(
    index: IndexView,
    tasks: Seq<Task>,
    slab: spec_fn(u32) -> Seq<u8>,
    inside: spec_fn(Seq<u8>) -> bool,
    level: Level,
    i: int,
)
    requires
        hits(index, tasks, slab, inside, i, level),
        forall|j: int| 0 <= j < i ==> !#[trigger] hits(index, tasks, slab, inside, j, level),
    ensures
        found(index, tasks, slab, inside).contains((level, slab(tasks[i].idx))),
    decreases tasks.len(),
{
    let all = found(index, tasks, slab, inside);
    let n = tasks.len() - 1;
    let fewer = tasks.drop_last();
    let before = found(index, fewer, slab, inside);
    if i < n {
        assert forall|j: int| 0 <= j < i implies !#[trigger] hits(
            index,
            fewer,
            slab,
            inside,
            j,
            level,
        ) by {
            assert(!hits(index, tasks, slab, inside, j, level));
        }
        law_first_hit_counts(index, fewer, slab, inside, level, i);
        let k = before.index_of((level, slab(tasks[i].idx)));
        assert(all[k] == before[k]);
    } else {
        law_every_hit_level_is_matched(index, fewer, slab, inside, level);
        assert forall|j: int| !#[trigger] hits(index, fewer, slab, inside, j, level) by {
            assert(0 <= j < i ==> !hits(index, tasks, slab, inside, j, level));
        }
        assert(all[before.len() as int] == (level, slab(tasks[i].idx)));
    }
}

/// What stands in front of the matches is found among the first tasks.
proof fn lemma_first_match(
    index: IndexView,
    tasks: Seq<Task>,
    slab: spec_fn(u32) -> Seq<u8>,
    inside: spec_fn(Seq<u8>) -> bool,
    level: Level,
)
    requires
        tasks.len() > 0,
        hit(index, tasks[0], slab, inside) == Some(level),
    ensures
        found(index, tasks, slab, inside).len() > 0,
        found(index, tasks, slab, inside)[0] == (level, slab(tasks[0].idx)),
    decreases tasks.len(),
{
    if tasks.len() > 1 {
        lemma_first_match(index, tasks.drop_last(), slab, inside, level);
    } else {
        assert(found(index, tasks.drop_last(), slab, inside) =~= Seq::empty());
    }
}

/// The country that the preindex gives for the point's cell is the first match,
/// whatever its chunk says.
pub proof fn law_preindex_country_comes_first(
    index: IndexView,
    lng: Number,
    lat: Number,
    slab: spec_fn(u32) -> Seq<u8>,
    inside: spec_fn(Seq<u8>) -> bool,
)
    requires
        answerable(index, lng, lat),
        index.country_preindex.contains_key(coarse_cell(lng, lat)),
    ensures
        ({
            let matched = completed(Progress::start(index, lng, lat), slab, inside).matched;
            let country = index.country_preindex[coarse_cell(lng, lat)];
            matched.len() > 0 && matched[0] == (Level::Country, slab(country))
        }),
{
    law_query_finds_all(index, lng, lat, slab, inside);
    lemma_first_match(index, plan(index, lng, lat), slab, inside, Level::Country);
}

/// Once the preindex has given the country, no other country or dependency is
/// fetched for a check.
pub proof fn law_known_country_is_not_checked(index: IndexView, lng: Number, lat: Number, i: int)
    requires
        index.country_preindex.contains_key(coarse_cell(lng, lat)),
        0 <= i < plan(index, lng, lat).len(),
        plan(index, lng, lat)[i].tier == Tier::Coarse,
        !plan(index, lng, lat)[i].certain,
    ensures
        index.subtypes[plan(index, lng, lat)[i].idx as int] != SUBTYPE_COUNTRY,
        index.subtypes[plan(index, lng, lat)[i].idx as int] != SUBTYPE_DEPENDENCY,
{
    let coarse = listed(index.grid_coarse, coarse_cell(lng, lat));
    let skipped = skipped_countries(index, coarse, true);
    let kept = selected(index.bboxes, coarse, skipped, lng, lat);
    let idx = plan(index, lng, lat)[i].idx;
    assert(kept[i - 1] == idx);
    law_selected_members(index.bboxes, coarse, skipped, lng, lat, idx);
}

/// Every level, by a number of its own.
spec fn level_number(level: Level) -> int {
    match level {
        Level::Country => 0,
        Level::Region => 1,
        Level::County => 2,
        Level::LocalAdmin => 3,
        Level::Locality => 4,
    }
}

/// No two matches of a query are for the same level, so there are at most five.
pub proof fn law_at_most_five_matches(p: Progress)
    requires
        p.consistent(),
    ensures
        p.matched.len() <= 5,
        forall|i: int, j: int|
            0 <= i < j < p.matched.len() ==> (#[trigger] p.matched[i]).0 != (
            #[trigger] p.matched[j]).0,
{
    let numbers = Seq::new(p.matched.len(), |i: int| level_number(p.matched[i].0));
    assert(numbers.no_duplicates());
    numbers.unique_seq_to_set();
    let range = vstd::set_lib::set_int_range(0, 5);
    vstd::set_lib::lemma_int_range(0, 5);
    assert(numbers.to_set().subset_of(range));
    vstd::set_lib::lemma_len_subset(numbers.to_set(), range);
}

} // verus!
