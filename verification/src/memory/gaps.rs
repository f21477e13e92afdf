use vstd::prelude::*;

use crate::memory::pfn::{pages_up, Pfn, PAGE_SIZE};
use crate::memory::region::{spec_page_range, PageRange, Region};

verus! {

/// `region`, rounded outward and clipped to `arena`, covers frame `pfn`.
pub open spec fn range_covers(arena: Region, region: Region, pfn: int) -> bool {
    match spec_page_range(region, arena) {
        Some(r) => r.has(pfn),
        None => false,
    }
}

/// Where the frames of `region` inside `arena` start, if it has any there.
pub open spec fn range_start(arena: Region, region: Region) -> Option<int> {
    match spec_page_range(region, arena) {
        Some(r) => Some(r.start.0 as int),
        None => None,
    }
}

/// The frames of `region` inside `arena` start above frame `pfn`.
pub open spec fn starts_above(arena: Region, region: Region, pfn: int) -> bool {
    match spec_page_range(region, arena) {
        Some(r) => r.start.0 > pfn,
        None => false,
    }
}

/// Some region of `taken`, rounded outward, covers frame `pfn`.
pub open spec fn covered(arena: Region, taken: Seq<Region>, pfn: int) -> bool {
    exists|i: int| 0 <= i < taken.len() && #[trigger] range_covers(arena, taken[i], pfn)
}

/// The first frame wholly inside `arena`.
pub open spec fn first_frame(arena: Region) -> int {
    pages_up(arena.base as int)
}

/// One past the last frame wholly inside `arena`.
pub open spec fn last_frame(arena: Region) -> int {
    arena.spec_end() / (PAGE_SIZE as int)
}

/// Frame `pfn` lies wholly inside `arena` and nothing in `taken` touches it.
pub open spec fn free_frame(arena: Region, taken: Seq<Region>, pfn: int) -> bool {
    &&& first_frame(arena) <= pfn < last_frame(arena)
    &&& !covered(arena, taken, pfn)
}

/// Some run of `runs` holds `pfn`.
pub open spec fn in_runs(runs: Seq<PageRange>, pfn: int) -> bool {
    exists|i: int| 0 <= i < runs.len() && (#[trigger] runs[i]).has(pfn)
}

/// `runs` are the free frames of `arena`, as maximal runs in address order:
/// each run is nonempty, runs come in increasing order, a frame is in a run
/// exactly when it is free, and every run starts and ends at the edge of the
/// arena or at a taken frame.
pub open spec fn exact_gaps(arena: Region, taken: Seq<Region>, runs: Seq<PageRange>) -> bool {
    &&& forall|i: int| 0 <= i < runs.len() ==> (#[trigger] runs[i]).start.0 < runs[i].end.0
    &&& forall|i: int, j: int|
        0 <= i < j < runs.len() ==> (#[trigger] runs[i]).end.0 < (#[trigger] runs[j]).start.0
    &&& forall|pfn: int| free_frame(arena, taken, pfn) <==> in_runs(runs, pfn)
    &&& forall|i: int|
        0 <= i < runs.len() ==> {
            &&& (#[trigger] runs[i]).start.0 == first_frame(arena) || covered(
                arena,
                taken,
                runs[i].start.0 - 1,
            )
            &&& runs[i].end.0 == last_frame(arena) || covered(arena, taken, runs[i].end.0 as int)
        }
}

/// The parts of `arena` that none of `taken` covers, in address order.
///
/// The arena rounds inward and every taken region rounds outward, so a run is
/// never half a page, and a region starting mid-page claims the whole page.
pub fn gaps(arena: Region, taken: &[Region]) -> (runs: Vec<PageRange>)
    requires
        arena.wf(),
        forall|i: int| 0 <= i < taken@.len() ==> (#[trigger] taken@[i]).wf(),
    ensures
        exact_gaps(arena, taken@, runs@),
{
    let mut cursor = Pfn::from_addr_up(arena.base).0;
    let end = Pfn::from_addr_down(arena.end()).0;
    let mut runs: Vec<PageRange> = Vec::new();
    loop
        invariant
            arena.wf(),
            forall|i: int| 0 <= i < taken@.len() ==> (#[trigger] taken@[i]).wf(),
            end == last_frame(arena),
            first_frame(arena) <= cursor,
            cursor == first_frame(arena) || covered(arena, taken@, cursor - 1) || covered(
                arena,
                taken@,
                cursor as int,
            ) || cursor >= end,
            forall|i: int| 0 <= i < runs@.len() ==> (#[trigger] runs@[i]).start.0 < runs@[i].end.0,
            forall|i: int, j: int|
                0 <= i < j < runs@.len() ==> (#[trigger] runs@[i]).end.0 < (
                #[trigger] runs@[j]).start.0,
            forall|i: int| 0 <= i < runs@.len() ==> (#[trigger] runs@[i]).end.0 <= cursor,
            forall|pfn: int|
                pfn < cursor ==> (free_frame(arena, taken@, pfn) <==> in_runs(runs@, pfn)),
            forall|pfn: int| cursor <= pfn ==> !in_runs(runs@, pfn),
            forall|i: int|
                0 <= i < runs@.len() ==> {
                    &&& (#[trigger] runs@[i]).start.0 == first_frame(arena) || covered(
                        arena,
                        taken@,
                        runs@[i].start.0 - 1,
                    )
                    &&& runs@[i].end.0 == last_frame(arena) || covered(
                        arena,
                        taken@,
                        runs@[i].end.0 as int,
                    )
                },
        decreases usize::MAX - cursor, 1int,
    {
        let ghost cursor_at_start = cursor;
        // Step over every taken run that covers the cursor.
        loop
            invariant
                arena.wf(),
                forall|i: int| 0 <= i < taken@.len() ==> (#[trigger] taken@[i]).wf(),
                end == last_frame(arena),
                first_frame(arena) <= cursor_at_start <= cursor,
                cursor == first_frame(arena) || covered(arena, taken@, cursor - 1) || covered(
                    arena,
                    taken@,
                    cursor as int,
                ) || cursor >= end,
                forall|i: int| 0 <= i < runs@.len() ==> (#[trigger] runs@[i]).end.0 <= cursor_at_start,
                forall|pfn: int|
                    cursor_at_start <= pfn < cursor ==> covered(arena, taken@, pfn),
            ensures
                !covered(arena, taken@, cursor as int),
                cursor == first_frame(arena) || covered(arena, taken@, cursor - 1) || cursor >= end,
            decreases usize::MAX - cursor,
        {
            match containing(arena, taken, Pfn(cursor)) {
                Some(stop) => {
                    let ghost i = choose|i: int|
                        0 <= i < taken@.len() && #[trigger] range_covers(arena, taken@[i], cursor as int)
                            && spec_page_range(taken@[i], arena).unwrap().end == stop;
                    assert forall|pfn: int| cursor <= pfn < stop.0 implies covered(
                        arena,
                        taken@,
                        pfn,
                    ) by {
                        assert(range_covers(arena, taken@[i], pfn));
                    }
                    assert(covered(arena, taken@, stop.0 - 1));
                    cursor = stop.0;
                },
                None => {
                    break ;
                },
            }
        }
        assert forall|pfn: int| pfn < cursor implies (free_frame(arena, taken@, pfn) <==> in_runs(
            runs@,
            pfn,
        )) by {
            if pfn >= cursor_at_start {
                if in_runs(runs@, pfn) {
                    let i = choose|i: int| 0 <= i < runs@.len() && (#[trigger] runs@[i]).has(pfn);
                }
            }
        }
        if cursor >= end {
            assert forall|pfn: int| free_frame(arena, taken@, pfn) <==> in_runs(runs@, pfn) by {
                if pfn >= cursor && in_runs(runs@, pfn) {
                    let i = choose|i: int| 0 <= i < runs@.len() && (#[trigger] runs@[i]).has(pfn);
                }
            }
            return runs;
        }
        let next_base = next_base_above(arena, taken, Pfn(cursor));
        let run_end = match next_base {
            Some(base) => if base.0 < end {
                base.0
            } else {
                end
            },
            None => end,
        };
        let ghost prev_runs = runs@;
        let run = PageRange { start: Pfn(cursor), end: Pfn(run_end) };
        assert forall|pfn: int| cursor <= pfn < run_end implies free_frame(arena, taken@, pfn) by {
            if covered(arena, taken@, pfn) {
                let i = choose|i: int| 0 <= i < taken@.len() && #[trigger] range_covers(arena, taken@[i], pfn);
                let r = spec_page_range(taken@[i], arena).unwrap();
                assert(spec_page_range(taken@[i], arena) is Some);
                assert(r.has(pfn));
                if r.start.0 <= cursor {
                    assert(range_covers(arena, taken@[i], cursor as int));
                    assert(covered(arena, taken@, cursor as int));
                } else {
                    assert(starts_above(arena, taken@[i], cursor as int));
                    assert(0 <= i < taken@.len());
                    assert(Pfn(cursor).0 == cursor);
                    assert(next_base is None ==> !starts_above(arena, taken@[i], Pfn(cursor).0 as int));
                    assert(next_base is Some);
                }
            }
        }
        runs.push(run);
        proof {
            assert(runs@.last() == run);
            assert forall|pfn: int| run_end <= pfn implies !in_runs(runs@, pfn) by {
                if in_runs(runs@, pfn) {
                    let i = choose|i: int| 0 <= i < runs@.len() && (#[trigger] runs@[i]).has(pfn);
                    if i < prev_runs.len() {
                        assert(prev_runs[i] == runs@[i]);
                    }
                }
            }
            assert forall|pfn: int| pfn < run_end implies (free_frame(arena, taken@, pfn) <==> in_runs(
                runs@,
                pfn,
            )) by {
                if in_runs(prev_runs, pfn) {
                    let i = choose|i: int| 0 <= i < prev_runs.len() && (#[trigger] prev_runs[i]).has(pfn);
                    assert(runs@[i] == prev_runs[i]);
                }
                if pfn >= cursor {
                    assert(runs@[runs@.len() - 1].has(pfn));
                } else if in_runs(runs@, pfn) {
                    let i = choose|i: int| 0 <= i < runs@.len() && (#[trigger] runs@[i]).has(pfn);
                    if i < prev_runs.len() {
                        assert(prev_runs[i] == runs@[i]);
                    }
                }
            }
            assert forall|i: int, j: int|
                0 <= i < j < runs@.len() implies (#[trigger] runs@[i]).end.0 < (
                #[trigger] runs@[j]).start.0 by {
                if j == runs@.len() - 1 {
                    assert(prev_runs[i] == runs@[i]);
                    if cursor == first_frame(arena) {
                        assert(runs@[i].start.0 >= first_frame(arena));
                        assert(!free_frame(arena, taken@, runs@[i].start.0 as int));
                        assert(in_runs(prev_runs, runs@[i].start.0 as int));
                    } else if runs@[i].end.0 == cursor {
                        assert(free_frame(arena, taken@, cursor - 1));
                        assert(runs@[i].has(cursor - 1));
                        assert(in_runs(prev_runs, cursor - 1));
                    }
                } else {
                    assert(prev_runs[i] == runs@[i]);
                    assert(prev_runs[j] == runs@[j]);
                }
            }
            if run_end != end {
                let i = choose|i: int|
                    0 <= i < taken@.len() && #[trigger] range_start(arena, taken@[i]) == Some(run_end as int);
                assert(range_covers(arena, taken@[i], run_end as int));
            }
        }
        cursor = run_end;
    }
}

/// The end of the first taken run covering `pfn`, if one does.
fn containing(arena: Region, taken: &[Region], pfn: Pfn) -> (stop: Option<Pfn>)
    requires
        arena.wf(),
        forall|i: int| 0 <= i < taken@.len() ==> (#[trigger] taken@[i]).wf(),
    ensures
        match stop {
            Some(stop) => exists|i: int|
                0 <= i < taken@.len() && #[trigger] range_covers(arena, taken@[i], pfn.0 as int)
                    && spec_page_range(taken@[i], arena).unwrap().end == stop,
            None => !covered(arena, taken@, pfn.0 as int),
        },
{
    let mut i: usize = 0;
    while i < taken.len()
        invariant
            arena.wf(),
            forall|i: int| 0 <= i < taken@.len() ==> (#[trigger] taken@[i]).wf(),
            i <= taken@.len(),
            forall|j: int| 0 <= j < i ==> !#[trigger] range_covers(arena, taken@[j], pfn.0 as int),
        decreases taken@.len() - i,
    {
        if let Some(range) = PageRange::new(taken[i], arena) {
            if range.contains(pfn) {
                assert(range_covers(arena, taken@[i as int], pfn.0 as int));
                return Some(range.end);
            }
        }
        i += 1;
    }
    None
}

/// The start of the nearest taken run that begins after `pfn`.
fn next_base_above(arena: Region, taken: &[Region], pfn: Pfn) -> (base: Option<Pfn>)
    requires
        arena.wf(),
        forall|i: int| 0 <= i < taken@.len() ==> (#[trigger] taken@[i]).wf(),
    ensures
        match base {
            Some(base) => {
                &&& pfn.0 < base.0
                &&& exists|i: int|
                    0 <= i < taken@.len() && #[trigger] range_start(arena, taken@[i]) == Some(
                        base.0 as int,
                    )
                &&& forall|i: int|
                    0 <= i < taken@.len() && #[trigger] starts_above(arena, taken@[i], pfn.0 as int)
                        ==> base.0 <= spec_page_range(taken@[i], arena).unwrap().start.0
            },
            None => forall|i: int|
                0 <= i < taken@.len() ==> !#[trigger] starts_above(arena, taken@[i], pfn.0 as int),
        },
{
    let mut best: Option<Pfn> = None;
    let mut i: usize = 0;
    while i < taken.len()
        invariant
            arena.wf(),
            forall|i: int| 0 <= i < taken@.len() ==> (#[trigger] taken@[i]).wf(),
            i <= taken@.len(),
            match best {
                Some(b) => {
                    &&& pfn.0 < b.0
                    &&& exists|k: int|
                        0 <= k < i && #[trigger] range_start(arena, taken@[k]) == Some(b.0 as int)
                    &&& forall|k: int|
                        0 <= k < i && #[trigger] starts_above(arena, taken@[k], pfn.0 as int) ==> b.0
                            <= spec_page_range(taken@[k], arena).unwrap().start.0
                },
                None => forall|k: int|
                    0 <= k < i ==> !#[trigger] starts_above(arena, taken@[k], pfn.0 as int),
            },
        decreases taken@.len() - i,
    {
        if let Some(range) = PageRange::new(taken[i], arena) {
            if range.start.0 > pfn.0 {
                let better = match best {
                    Some(b) => range.start.0 < b.0,
                    None => true,
                };
                if better {
                    best = Some(range.start);
                    assert(range_start(arena, taken@[i as int]) == Some(range.start.0 as int));
                }
            }
        }
        i += 1;
    }
    best
}

/// `region` holds the byte at address `x`.
pub open spec fn holds(region: Region, x: int) -> bool {
    region.base <= x < region.spec_end()
}

/// The page of `x` starts at or below it and ends above it.
proof fn lemma_page_of(x: int)
    requires
        x >= 0,
    ensures
        (x / PAGE_SIZE as int) * PAGE_SIZE as int <= x < (x / PAGE_SIZE as int) * PAGE_SIZE as int
            + PAGE_SIZE as int,
        x / PAGE_SIZE as int >= 0,
{
    vstd::arithmetic::div_mod::lemma_fundamental_div_mod(x, PAGE_SIZE as int);
}

/// No frame that holds a byte of a taken region inside the arena lies in
/// any run: a region that starts or ends partway through a page keeps that
/// whole page out.
pub proof fn lemma_taken_bytes_not_free(
    arena: Region,
    taken: Seq<Region>,
    runs: Seq<PageRange>,
    i: int,
    x: int,
)
    requires
        exact_gaps(arena, taken, runs),
        arena.wf(),
        0 <= i < taken.len(),
        taken[i].wf(),
        taken[i].base <= x < taken[i].spec_end(),
        arena.base <= x < arena.spec_end(),
    ensures
        !in_runs(runs, x / PAGE_SIZE as int),
{
    let t = taken[i];
    let p = PAGE_SIZE as int;
    let base: int = if t.base >= arena.base {
        t.base as int
    } else {
        arena.base as int
    };
    let end: int = if t.spec_end() <= arena.spec_end() {
        t.spec_end()
    } else {
        arena.spec_end()
    };
    lemma_page_of(x);
    lemma_page_of(base);
    lemma_page_of(end);
    let q = x / p;
    let qb = base / p;
    let qe = end / p;
    assert(qb <= q) by (nonlinear_arith)
        requires
            qb * p <= base,
            base <= x,
            x < q * p + p,
            p > 0,
    ;
    assert(q < pages_up(end)) by {
        if end % p == 0 {
            vstd::arithmetic::div_mod::lemma_fundamental_div_mod(end, p);
            assert(q < qe) by (nonlinear_arith)
                requires
                    q * p <= x,
                    x < end,
                    end == p * qe,
                    p > 0,
            ;
        } else {
            assert(q <= qe) by (nonlinear_arith)
                requires
                    q * p <= x,
                    x < end,
                    end < qe * p + p,
                    p > 0,
            ;
        }
    }
    assert(range_covers(arena, t, q));
    assert(covered(arena, taken, q));
}

/// A frame wholly inside the arena that holds no byte of any taken region
/// lies in a run: nothing is kept out that need not be.
pub proof fn lemma_untouched_frame_free(arena: Region, taken: Seq<Region>, runs: Seq<PageRange>, pfn: int)
    requires
        exact_gaps(arena, taken, runs),
        arena.wf(),
        forall|i: int| 0 <= i < taken.len() ==> (#[trigger] taken[i]).wf(),
        arena.base <= pfn * PAGE_SIZE,
        pfn * PAGE_SIZE + PAGE_SIZE <= arena.spec_end(),
        forall|i: int, x: int|
            #![trigger taken[i], holds(taken[i], x)]
            0 <= i < taken.len() && pfn * PAGE_SIZE <= x < pfn * PAGE_SIZE + PAGE_SIZE ==> !holds(
                taken[i],
                x,
            ),
    ensures
        in_runs(runs, pfn),
{
    let p = PAGE_SIZE as int;
    assert(pfn >= 0) by (nonlinear_arith)
        requires
            pfn * p >= 0,
            p > 0,
    ;
    lemma_page_of(arena.base as int);
    lemma_page_of(arena.spec_end());
    assert(first_frame(arena) <= pfn) by {
        let qa = arena.base as int / p;
        if arena.base as int % p == 0 {
            vstd::arithmetic::div_mod::lemma_fundamental_div_mod(arena.base as int, p);
            assert(qa <= pfn) by (nonlinear_arith)
                requires
                    arena.base == p * qa,
                    arena.base <= pfn * p,
                    p > 0,
            ;
        } else {
            vstd::arithmetic::div_mod::lemma_fundamental_div_mod(arena.base as int, p);
            assert(qa < pfn) by (nonlinear_arith)
                requires
                    qa * p < arena.base,
                    arena.base < qa * p + p,
                    arena.base <= pfn * p,
                    p > 0,
            ;
        }
    }
    assert(pfn < last_frame(arena)) by {
        let qe = arena.spec_end() / p;
        assert(pfn < qe) by (nonlinear_arith)
            requires
                pfn * p + p <= arena.spec_end(),
                arena.spec_end() < qe * p + p,
                p > 0,
        ;
    }
    assert(!covered(arena, taken, pfn)) by {
        if covered(arena, taken, pfn) {
            let i = choose|i: int| 0 <= i < taken.len() && #[trigger] range_covers(arena, taken[i], pfn);
            let t = taken[i];
            let base: int = if t.base >= arena.base {
                t.base as int
            } else {
                arena.base as int
            };
            let end: int = if t.spec_end() <= arena.spec_end() {
                t.spec_end()
            } else {
                arena.spec_end()
            };
            assert(t.wf());
            lemma_page_of(base);
            lemma_page_of(end);
            let qb = base / p;
            let qe = end / p;
            assert(qb <= pfn && pfn < pages_up(end));
            let x: int = if base >= pfn * p {
                base
            } else {
                pfn * p
            };
            assert(x < pfn * p + p) by (nonlinear_arith)
                requires
                    qb <= pfn,
                    base < qb * p + p,
                    x == (if base >= pfn * p { base } else { pfn * p }),
                    p > 0,
            ;
            assert(pfn * p < end) by {
                if end % p == 0 {
                    vstd::arithmetic::div_mod::lemma_fundamental_div_mod(end, p);
                    assert(pfn * p < end) by (nonlinear_arith)
                        requires
                            pfn < qe,
                            end == p * qe,
                            p > 0,
                    ;
                } else {
                    assert(pfn * p < end) by (nonlinear_arith)
                        requires
                            pfn <= qe,
                            qe * p <= end,
                            end % p != 0,
                            end == qe * p + end % p,
                            p > 0,
                    ;
                }
            }
            assert(holds(taken[i], x));
        }
    }
    assert(free_frame(arena, taken, pfn));
}

/// Every frame of a run lies wholly inside the arena: a frame the arena
/// only partly covers is never handed out.
pub proof fn lemma_runs_inside_arena(arena: Region, taken: Seq<Region>, runs: Seq<PageRange>, pfn: int)
    requires
        exact_gaps(arena, taken, runs),
        arena.wf(),
        in_runs(runs, pfn),
    ensures
        arena.base <= pfn * PAGE_SIZE,
        pfn * PAGE_SIZE + PAGE_SIZE <= arena.spec_end(),
{
    let p = PAGE_SIZE as int;
    assert(free_frame(arena, taken, pfn));
    lemma_page_of(arena.base as int);
    lemma_page_of(arena.spec_end());
    let qa = arena.base as int / p;
    let qe = arena.spec_end() / p;
    if arena.base as int % p == 0 {
        vstd::arithmetic::div_mod::lemma_fundamental_div_mod(arena.base as int, p);
        assert(arena.base <= pfn * p) by (nonlinear_arith)
            requires
                arena.base == p * qa,
                qa <= pfn,
                p > 0,
        ;
    } else {
        assert(arena.base <= pfn * p) by (nonlinear_arith)
            requires
                arena.base < qa * p + p,
                qa + 1 <= pfn,
                p > 0,
        ;
    }
    assert(pfn * p + p <= arena.spec_end()) by (nonlinear_arith)
        requires
            pfn + 1 <= qe,
            qe * p <= arena.spec_end(),
            p > 0,
    ;
}

} // verus!
