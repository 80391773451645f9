use coreba::algo::placement::{do_best_fit, fit, get_loose_placement};
use coreba::analyze::{placement_is_valid, prelude_analysis};
use coreba::helpe::{
    AnalysisResult, InterferenceGraph, PlacedJob, PlacedJobRegistry, UnboxCtrl,
};
use coreba::jobset::init;
use coreba::{BoxIds, Job, JobSet};
use std::sync::Arc;

fn job(id: u32, birth: usize, death: usize, size: usize) -> Job {
    Job {
        size,
        birth,
        death,
        req_size: size,
        alignment: None,
        contents: None,
        originals_boxed: 0,
        id,
    }
}

fn set(jobs: Vec<Job>) -> JobSet {
    init(jobs).unwrap()
}

fn graph_of(jobs: &JobSet) -> (InterferenceGraph, PlacedJobRegistry) {
    let mut ig = InterferenceGraph::new();
    let mut reg = PlacedJobRegistry::new();
    for a in jobs {
        let ns = jobs
            .iter()
            .filter(|b| b.id != a.id && a.birth < b.death && b.birth < a.death)
            .map(|b| b.id)
            .collect();
        ig.insert(a.id, ns);
        reg.insert(a.id, PlacedJob::new(a.clone()));
    }
    (ig, reg)
}

#[test]
fn the_walk_finds_the_first_or_the_smallest_gap() {
    let to_squeeze = PlacedJob::new(Arc::new(job(0, 0, 9, 2)));
    // neighbours at [3, 5), [10, 12), [14, 15)
    let nbs = vec![(3, 5, 1), (10, 12, 2), (14, 15, 3)];
    assert_eq!(fit(&nbs, &to_squeeze, 0, true), Some(0));
    // gaps of 3, 5 and 2: the smallest that takes the job is the last
    assert_eq!(fit(&nbs, &to_squeeze, 0, false), Some(12));
    let wide = PlacedJob::new(Arc::new(job(0, 0, 9, 4)));
    assert_eq!(fit(&nbs, &wide, 0, true), Some(5));
    let wider = PlacedJob::new(Arc::new(job(0, 0, 9, 6)));
    assert_eq!(fit(&nbs, &wider, 0, true), Some(15));
    assert_eq!(fit(&vec![], &wider, 0, false), Some(0));
}

#[test]
fn the_walk_corrects_the_gaps_but_not_the_top() {
    let mut j = job(0, 0, 9, 2);
    j.alignment = Some(4);
    let aligned = PlacedJob::new(Arc::new(j));
    let nbs = vec![(0, 3, 1), (9, 11, 2)];
    // the gap [3, 9) is tried from 4
    assert_eq!(fit(&nbs, &aligned, 0, true), Some(4));
    // nothing fits below: on top of the last neighbour, as it ends
    let nbs = vec![(0, 3, 1), (5, 7, 2)];
    assert_eq!(fit(&nbs, &aligned, 0, true), Some(7));
}

#[test]
fn squeezing_keeps_neighbours_apart() {
    let jobs = set(vec![
        job(0, 0, 4, 5),
        job(1, 2, 6, 3),
        job(2, 3, 9, 4),
        job(3, 6, 9, 2),
    ]);
    let (ig, mut reg) = graph_of(&jobs);
    let loose = vec![(0, 0), (1, 1), (2, 2), (3, 3)];
    let makespan = do_best_fit(loose, &ig, &mut reg, 0, usize::MAX, true, 0);
    assert_eq!(makespan, 12);
    assert_eq!(reg[&0].offset, 0);
    assert_eq!(reg[&1].offset, 5);
    assert_eq!(reg[&2].offset, 8);
    assert_eq!(reg[&3].offset, 0);
    for id in 0..4u32 {
        assert_eq!(reg[&id].times_squeezed, 1);
    }
    assert!(placement_is_valid(&(ig, reg)));
}

#[test]
fn squeezing_stops_above_the_limit() {
    let jobs = set(vec![job(0, 0, 4, 5), job(1, 2, 6, 3)]);
    let (ig, mut reg) = graph_of(&jobs);
    let makespan = do_best_fit(vec![(0, 0), (1, 1)], &ig, &mut reg, 0, 7, true, 0);
    assert_eq!(makespan, usize::MAX);
    let (ig, mut reg) = graph_of(&jobs);
    let makespan = do_best_fit(vec![(0, 0), (1, 1)], &ig, &mut reg, 0, 8, true, 0);
    assert_eq!(makespan, 8);
    // a job met twice makes the loose placement none
    let (ig, mut reg) = graph_of(&jobs);
    let makespan = do_best_fit(vec![(0, 0), (1, 1), (2, 0)], &ig, &mut reg, 0, 100, true, 0);
    assert_eq!(makespan, usize::MAX);
}

#[test]
fn a_placement_with_neighbours_on_one_address_is_not_valid() {
    let jobs = set(vec![job(0, 0, 4, 5), job(1, 2, 6, 3)]);
    let (ig, mut reg) = graph_of(&jobs);
    reg.get_mut(&1).unwrap().offset = 4;
    assert!(!placement_is_valid(&(ig, reg)));
    let (ig, mut reg) = graph_of(&jobs);
    reg.get_mut(&1).unwrap().offset = 5;
    assert!(placement_is_valid(&(ig, reg)));
    let (ig, mut reg) = graph_of(&jobs);
    reg.get_mut(&0).unwrap().offset = 3;
    assert!(placement_is_valid(&(ig, reg)));
}

#[test]
fn the_analysis_tells_the_three_kinds_apart() {
    match prelude_analysis(set(vec![job(0, 0, 1, 10), job(1, 1, 3, 20)])) {
        AnalysisResult::NoOverlap(js) => assert_eq!(js.len(), 2),
        _ => panic!("these jobs never meet"),
    }
    match prelude_analysis(set(vec![job(0, 0, 2, 8), job(1, 1, 3, 8)])) {
        AnalysisResult::SameSizes(js, ig, reg) => {
            assert_eq!(js.len(), 2);
            assert_eq!(ig[&0], vec![1]);
            assert_eq!(ig[&1], vec![0]);
            assert_eq!(reg.len(), 2);
        }
        _ => panic!("these jobs meet and have one size"),
    }
    match prelude_analysis(set(vec![
        job(0, 0, 4, 8),
        job(1, 1, 3, 6),
        job(2, 2, 9, 8),
        job(7, 5, 9, 1),
    ])) {
        AnalysisResult::NeedsBA(ctrl) => {
            assert_eq!(ctrl.real_load, 22);
            assert_eq!(ctrl.to_box, 4);
            assert_eq!(ctrl.max_death, 9);
            assert_eq!(ctrl.max_id, 7);
            assert!(ctrl.dummy.is_none());
            assert_eq!(ctrl.input.info.load, Some(22));
            assert_eq!(ctrl.input.info.min_max_height, Some((1, 8)));
            let mut n0 = ctrl.ig[&0].clone();
            n0.sort();
            assert_eq!(n0, vec![1, 2]);
            let mut n2 = ctrl.ig[&2].clone();
            n2.sort();
            assert_eq!(n2, vec![0, 1, 7]);
            // big jobs first, the longer-lived first among equals
            assert_eq!(ctrl.reg[&2].offset, 0);
            assert_eq!(ctrl.reg[&0].offset, 8);
            assert_eq!(ctrl.reg[&1].offset, 16);
            assert_eq!(ctrl.reg[&7].offset, 8);
            assert_eq!(ctrl.best_opt, 22);
            assert!(placement_is_valid(&(ctrl.ig, ctrl.reg)));
        }
        _ => panic!("these jobs need boxing"),
    }
}

#[test]
fn unboxing_gives_every_job_of_the_input_a_loose_offset() {
    let mut ids = BoxIds::new();
    let a = Job::new_box(set(vec![job(0, 0, 4, 3), job(1, 2, 6, 3)]), 6, &mut ids);
    let b = Job::new_box(set(vec![job(2, 1, 5, 2), job(3, 6, 8, 4)]), 6, &mut ids);
    let dummy = job(99, 0, 9, 6);
    let boxed: JobSet = vec![Arc::new(a), Arc::new(b), Arc::new(dummy)];
    let mut loose = get_loose_placement(boxed, 10, UnboxCtrl::SameSizes(6), 99);
    loose.sort_by_key(|e| e.1);
    // the two boxes and the dummy are live together: a row each, the
    // dummy in the middle one; within a box the jobs of one size are
    // coloured, the others, which never meet, go to one offset
    assert_eq!(loose.len(), 4);
    assert_eq!(loose[0], (10, 0));
    assert_eq!(loose[1], (13, 1));
    assert_eq!(loose[2], (22, 2));
    assert_eq!(loose[3], (22, 3));
}

#[test]
fn squeezing_goes_round_neighbours_that_bear_the_stamp_already() {
    let jobs = set(vec![job(0, 0, 9, 2), job(1, 0, 9, 1), job(2, 0, 9, 1)]);
    for (first_fit, offset, makespan) in [(false, 6, 8), (true, 0, 2)] {
        let (ig, mut reg) = graph_of(&jobs);
        for (id, at) in [(1u32, 5usize), (2, 8)] {
            let mut placed = PlacedJob::new(jobs[id as usize].clone());
            placed.offset = at;
            placed.times_squeezed = 1;
            reg.insert(id, placed);
        }
        let got = do_best_fit(vec![(0, 0)], &ig, &mut reg, 0, usize::MAX, first_fit, 0);
        assert_eq!(got, makespan);
        assert_eq!(reg.get(&0).unwrap().offset, offset);
        assert_eq!(reg.get(&0).unwrap().times_squeezed, 1);
        assert_eq!(reg.get(&1).unwrap().offset, 5);
        assert_eq!(reg.get(&2).unwrap().offset, 8);
    }
}

#[test]
fn squeezing_gives_up_at_a_job_that_bears_the_stamp_already() {
    let jobs = set(vec![job(0, 0, 9, 2), job(1, 0, 9, 1)]);
    let (ig, mut reg) = graph_of(&jobs);
    assert_eq!(do_best_fit(vec![(0, 0), (1, 1)], &ig, &mut reg, 3, usize::MAX, true, 0), 3);
    // the same round again
    assert_eq!(do_best_fit(vec![(0, 0), (1, 1)], &ig, &mut reg, 3, usize::MAX, true, 0), usize::MAX);
    // a job listed twice
    let (ig, mut reg) = graph_of(&jobs);
    assert_eq!(do_best_fit(vec![(0, 0), (0, 0)], &ig, &mut reg, 0, usize::MAX, true, 0), usize::MAX);
    assert_eq!(reg.get(&0).unwrap().offset, 0);
}
