use coreba::algo::boxing::{c_15, lemma_1, rogue, t_2, BoxingPlan};
use coreba::algo::{idealloc, Outcome};
use coreba::job::DUMMY_ID;
use coreba::jobset::{get_load, init};
use coreba::strips::{strip_boxin, HorStripJob, New, VertStripJob};
use coreba::{timer_end, timer_start, BoxIds, Instance, Job, JobSet};
use std::sync::Arc;

fn job(id: u32, birth: usize, death: usize, size: usize) -> Job {
    Job {
        size,
        birth,
        death,
        req_size: size,
        alignment: None,
        contents: None,
        originals_boxed: 0,
        id,
    }
}

fn set(jobs: Vec<Job>) -> JobSet {
    init(jobs).unwrap()
}

/// Jobs with lifetimes and sizes that go up and down with the index.
fn many(n: u32) -> Vec<Job> {
    (0..n)
        .map(|i| {
            let birth = ((i * 7) % 40) as usize;
            let life = 2 + ((i * 5) % 11) as usize;
            let size = 1 + ((i * 13) % 29) as usize;
            job(i, birth, birth + life, size)
        })
        .collect()
}

/// The identifiers of the jobs held one level down, sorted.
fn held(boxes: &JobSet) -> Vec<u32> {
    let mut ids: Vec<u32> = boxes
        .iter()
        .flat_map(|b| b.contents.as_ref().unwrap().iter().map(|j| j.id))
        .collect();
    ids.sort();
    ids
}

fn check_boxes(boxes: &JobSet, height: usize) {
    for b in boxes {
        let c = b.contents.as_ref().unwrap();
        assert!(!c.is_empty());
        assert_eq!(b.size, height);
        assert_eq!(b.birth, c.iter().map(|j| j.birth).min().unwrap());
        assert_eq!(b.death, c.iter().map(|j| j.death).max().unwrap());
        assert!(get_load(c) <= height);
        assert!(b.id > u32::MAX / 2 + 1);
    }
}

#[test]
fn few_jobs_are_all_left_unresolved() {
    let mut ids = BoxIds::new();
    let jobs = set(vec![job(0, 0, 4, 1), job(1, 1, 5, 1), job(2, 2, 6, 1), job(3, 3, 7, 1)]);
    let (boxed, unresolved) = lemma_1(jobs, 1, 10, 2, 1, &mut ids);
    assert!(boxed.is_none());
    assert_eq!(unresolved.len(), 4);
}

#[test]
fn strips_take_the_latest_deaths_then_the_latest_births() {
    let mut ids = BoxIds::new();
    let jobs = set(vec![
        job(0, 0, 20, 1),
        job(1, 1, 3, 1),
        job(2, 2, 19, 1),
        job(3, 9, 12, 1),
        job(4, 4, 6, 1),
        job(5, 5, 8, 1),
        job(6, 3, 10, 1),
    ]);
    // h = 1, one job to an outer strip, up to two to an inner strip
    let (boxed, unresolved) = lemma_1(jobs, 1, 9, 1, 2, &mut ids);
    let out: Vec<u32> = unresolved.iter().map(|j| j.id).collect();
    // the job that dies last, then of the rest the one born last
    assert_eq!(out, vec![0, 3]);
    let boxed = boxed.unwrap();
    check_boxes(&boxed, 9);
    assert_eq!(held(&boxed), vec![1, 2, 4, 5, 6]);
    // one job to a box: the vertical strips come first, and hand out the
    // job that dies last first
    let order: Vec<u32> = boxed
        .iter()
        .map(|b| b.contents.as_ref().unwrap()[0].id)
        .collect();
    assert_eq!(order, vec![2, 6, 1, 4, 5]);
}

#[test]
fn jobs_with_one_identifier_are_not_carved() {
    let mut ids = BoxIds::new();
    let jobs: JobSet = vec![
        Arc::new(job(0, 0, 4, 1)),
        Arc::new(job(0, 1, 5, 1)),
        Arc::new(job(2, 2, 6, 1)),
    ];
    let (boxed, unresolved) = lemma_1(jobs, 1, 10, 1, 1, &mut ids);
    assert!(boxed.is_none());
    assert_eq!(unresolved.len(), 3);
}

#[test]
fn strips_are_boxed_in_groups() {
    let mut ids = BoxIds::new();
    let vert = vec![vec![
        VertStripJob::new(Arc::new(job(0, 0, 9, 2))),
        VertStripJob::new(Arc::new(job(1, 0, 8, 2))),
        VertStripJob::new(Arc::new(job(2, 0, 7, 2))),
    ]];
    let hor = vec![vec![HorStripJob::new(Arc::new(job(3, 1, 5, 2)))]];
    let boxes = strip_boxin(vert, hor, 2, 4, &mut ids);
    let groups: Vec<Vec<u32>> = boxes
        .iter()
        .map(|b| b.contents.as_ref().unwrap().iter().map(|j| j.id).collect())
        .collect();
    assert_eq!(groups, vec![vec![0, 1], vec![2], vec![3]]);
    check_boxes(&boxes, 4);
    assert_eq!(VertStripJob::new(Arc::new(job(0, 0, 9, 2))).rank(), usize::MAX - 9);
    assert_eq!(HorStripJob::new(Arc::new(job(0, 4, 9, 2))).rank(), 4);
    assert_eq!(HorStripJob::new(Arc::new(job(5, 4, 9, 2))).get_inner_job().id, 5);
}

#[test]
fn boxing_around_critical_points_puts_every_job_in_one_box() {
    for round in 0..10 {
        let mut ids = BoxIds::new();
        let jobs: Vec<Job> = many(60).into_iter().map(|mut j| { j.size = 3; j.req_size = 3; j }).collect();
        let input = Instance::new(set(jobs));
        let res = t_2(input, 2, 6, 1, 1, None, &mut ids);
        check_boxes(&res.jobs, 6);
        assert_eq!(held(&res.jobs), (0..60).collect::<Vec<u32>>(), "round {}", round);
        assert_eq!(res.total_originals_boxed(), 60);
    }
}

#[test]
fn boxing_by_buckets_puts_every_job_in_one_box() {
    let plan = BoxingPlan { h: 64, thresholds: vec![1, 2, 4, 8, 16, 32], outer_mult: 1, inner_mult: 2 };
    for _ in 0..5 {
        let mut ids = BoxIds::new();
        let input = Instance::new(set(many(100)));
        assert!(plan.check(&input.jobs));
        assert!(ids.has(input.jobs.len()));
        let res = c_15(input, &plan, &mut ids);
        check_boxes(&res.jobs, 64);
        assert_eq!(held(&res.jobs), (0..100).collect::<Vec<u32>>());
    }
    let low = BoxingPlan { h: 16, thresholds: vec![1, 2, 4, 8, 16], outer_mult: 1, inner_mult: 2 };
    assert!(!low.check(&set(many(100))));
    let high = BoxingPlan { h: 16, thresholds: vec![8, 32], outer_mult: 1, inner_mult: 2 };
    assert!(!high.check(&set(many(100))));
    let down = BoxingPlan { h: 64, thresholds: vec![8, 4, 32], outer_mult: 1, inner_mult: 2 };
    assert!(!down.check(&set(many(100))));
}

#[test]
fn a_round_boxes_the_small_jobs_and_keeps_the_others() {
    let plan = BoxingPlan { h: 20, thresholds: vec![1, 2, 4, 8], outer_mult: 4, inner_mult: 2 };
    let mut ids = BoxIds::new();
    let input = Instance::new(set(many(80)));
    let small: Vec<u32> = input.jobs.iter().filter(|j| j.size <= 8).map(|j| j.id).collect();
    let large: Vec<u32> = input.jobs.iter().filter(|j| j.size > 8).map(|j| j.id).collect();
    let res = rogue(&input, 8, &plan, &mut ids);
    let kept: Vec<u32> = res.jobs.iter().take(large.len()).map(|j| j.id).collect();
    assert_eq!(kept, large);
    let boxes: JobSet = res.jobs.iter().skip(large.len()).cloned().collect();
    check_boxes(&boxes, 20);
    let mut small_sorted = small.clone();
    small_sorted.sort();
    assert_eq!(held(&boxes), small_sorted);
    assert_eq!(res.min_max_height().1, 29);
}

fn search(max_lives: u32) -> (usize, usize, Vec<(u32, usize)>) {
    match idealloc(set(many(120)), 0, max_lives) {
        Outcome::Refine(mut search, input) => {
            let load = search.real_load();
            search.aim(load);
            let dummy = search.dummy(64).unwrap();
            assert_eq!(dummy.id, DUMMY_ID);
            assert_eq!(dummy.death, search.max_death());
            assert_eq!(search.max_id(), 119);
            let mut jobs = input.jobs.clone();
            jobs.push(dummy);
            let with_dummy = Instance::new(jobs);
            let plan = BoxingPlan {
                h: 64,
                thresholds: vec![1, 2, 4, 8, 16, 32, 64],
                outer_mult: 1,
                inner_mult: 2,
            };
            while search.wants_trial() {
                let mut ids = BoxIds::new();
                let boxed = c_15(Instance::new(with_dummy.jobs.clone()), &plan, &mut ids);
                let before = search.best();
                let got = search.trial(boxed);
                assert!(search.best() <= before);
                assert!(got == usize::MAX || got >= load);
            }
            assert!(search.best() <= search.fallback_makespan());
            let (placement, makespan) = search.finish();
            let mut offsets: Vec<(u32, usize)> =
                placement.iter().map(|(id, pj)| (*id, pj.offset)).collect();
            offsets.sort();
            (makespan, load, offsets)
        }
        Outcome::Placed(..) => panic!("these jobs need boxing"),
    }
}

#[test]
fn more_trials_never_make_the_placement_worse() {
    let (baseline, load, offsets) = search(0);
    assert!(baseline >= load);
    assert_eq!(offsets.len(), 120);
    let (refined, load, offsets) = search(5);
    assert!(refined <= baseline);
    assert!(refined >= load);
    // the dummy job has no place in the outcome
    assert_eq!(offsets.len(), 120);
    assert!(offsets.iter().all(|(id, _)| *id < 120));
    // no two jobs that meet share an address
    let jobs = many(120);
    for a in &jobs {
        for b in &jobs {
            if a.id < b.id && a.birth < b.death && b.birth < a.death {
                let (oa, ob) = (offsets[a.id as usize].1, offsets[b.id as usize].1);
                assert!(oa + a.size <= ob || ob + b.size <= oa);
                assert!(oa + a.size <= refined);
            }
        }
    }
}

#[test]
fn the_clock_ticks() {
    let clk = timer_start();
    let first = clk.tick();
    let second = clk.tick();
    assert!(second >= first);
    let _micros: u128 = timer_end(clk);
}

#[test]
fn a_trial_on_nothing_costs_a_life_and_changes_no_placement() {
    match idealloc(set(many(120)), 0, 2) {
        Outcome::Refine(mut search, _) => {
            let before = search.best();
            assert_eq!(before, search.fallback_makespan());
            search.aim(0);
            assert!(search.wants_trial());
            assert_eq!(search.trial(Instance::new(vec![])), usize::MAX);
            assert_eq!(search.lives_left(), 1);
            assert_eq!(search.best(), before);
            assert!(search.wants_trial());
            // a trial on jobs that the search does not know
            let strangers = Instance::new(set(vec![job(500, 0, 4, 8), job(501, 2, 6, 8)]));
            assert_eq!(search.trial(strangers), usize::MAX);
            assert_eq!(search.lives_left(), 0);
            assert_eq!(search.best(), before);
            assert!(!search.wants_trial());
            let (placement, makespan) = search.finish();
            assert_eq!(makespan, before);
            assert_eq!(placement.len(), 120);
        }
        Outcome::Placed(..) => panic!("these jobs need boxing"),
    }
}

#[test]
fn the_search_asks_for_no_trial_once_its_target_is_reached() {
    match idealloc(set(many(120)), 0, 3) {
        Outcome::Refine(mut search, _) => {
            let best = search.best();
            search.aim(best);
            assert!(!search.wants_trial());
            search.aim(best - 1);
            assert!(search.wants_trial());
            assert!(search.dummy(0).is_none());
            let dummy = search.dummy(7).unwrap();
            assert_eq!((dummy.id, dummy.size, dummy.req_size, dummy.birth), (DUMMY_ID, 7, 7, 0));
            assert_eq!(dummy.death, search.max_death());
            assert_eq!(dummy.death, many(120).iter().map(|j| j.death).max().unwrap());
            assert!(dummy.alignment.is_none() && dummy.contents.is_none());
        }
        Outcome::Placed(..) => panic!("these jobs need boxing"),
    }
}

#[test]
fn the_outer_strips_hold_the_jobs_that_die_last_and_are_born_last() {
    let mut ids = BoxIds::new();
    let (boxed, unresolved) = lemma_1(set(many(60)), 2, 64, 3, 2, &mut ids);
    let boxed = boxed.unwrap();
    assert_eq!(unresolved.len(), 12);
    let inner: Vec<Arc<Job>> =
        boxed.iter().flat_map(|b| b.contents.as_ref().unwrap().iter().cloned()).collect();
    assert_eq!(inner.len(), 48);
    let (vertical, horizontal) = unresolved.split_at(6);
    let least_death = vertical.iter().map(|j| j.death).min().unwrap();
    assert!(horizontal.iter().all(|j| j.death <= least_death));
    assert!(inner.iter().all(|j| j.death <= least_death));
    let least_birth = horizontal.iter().map(|j| j.birth).min().unwrap();
    assert!(inner.iter().all(|j| j.birth <= least_birth));
    // every box but the last of a strip holds two jobs
    assert!(boxed.iter().all(|b| b.contents.as_ref().unwrap().len() <= 2));
    assert!(boxed.iter().all(|b| b.req_size == 64 && b.alignment.is_none()));
    assert!(boxed.iter().all(|b| b.originals_boxed as usize == b.contents.as_ref().unwrap().len()));
}
