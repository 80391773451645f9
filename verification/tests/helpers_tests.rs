use coreba::helpe::{
    crit_candidates, in_order, lookup, neighbours, record, set_insert, sort_order,
    InterferenceGraph, PlacedJob, PlacedJobRegistry,
};
use coreba::jobset::init;
use coreba::strips::{strip_box_core, strip_cuttin, HorStripJob, New, VertStripJob};
use coreba::{BoxIds, Job, JobSet};
use indexmap::IndexMap;
use std::collections::BTreeSet;

fn simple(id: u32, birth: usize, death: usize, size: usize) -> Job {
    Job {
        size,
        birth,
        death,
        req_size: size,
        alignment: None,
        contents: None,
        originals_boxed: 0,
        id,
    }
}

fn some_jobs() -> JobSet {
    init(vec![
        simple(10, 0, 9, 1),
        simple(11, 4, 6, 2),
        simple(12, 2, 12, 3),
        simple(13, 7, 8, 4),
        simple(14, 1, 10, 5),
    ])
    .unwrap()
}

#[test]
fn the_order_of_keys_goes_upward_and_keeps_equal_keys_in_place() {
    let keys = vec![(5, 0), (1, 9), (5, 0), (1, 2), (0, 7)];
    assert_eq!(sort_order(&keys), vec![4, 3, 1, 0, 2]);
    assert_eq!(sort_order(&vec![]), Vec::<usize>::new());
    assert_eq!(sort_order(&vec![(3, 3)]), vec![0]);
}

#[test]
fn a_set_takes_a_number_once_and_hands_its_numbers_out_in_order() {
    let mut set = BTreeSet::new();
    assert!(set_insert(&mut set, 7));
    assert!(set_insert(&mut set, 2));
    assert!(!set_insert(&mut set, 7));
    assert!(set_insert(&mut set, 5));
    assert_eq!(in_order(&set), vec![2, 5, 7]);
    assert_eq!(in_order(&BTreeSet::new()), Vec::<usize>::new());
}

#[test]
fn the_registry_and_the_graph_are_looked_up_by_identifier() {
    let jobs = some_jobs();
    let mut reg = PlacedJobRegistry::new();
    let mut ig = InterferenceGraph::new();
    assert!(lookup(&reg, 10).is_none());
    assert!(neighbours(&ig, 10).is_none());
    let mut placed = PlacedJob::new(jobs[0].clone());
    placed.offset = 40;
    record(&mut reg, 10, placed);
    ig.insert(10, vec![12, 14]);
    let found = lookup(&reg, 10).unwrap();
    assert_eq!((found.offset, found.times_squeezed, found.descr.id), (40, 0, 10));
    assert_eq!(found.next_avail_offset(), 41);
    assert_eq!(neighbours(&ig, 10).unwrap(), &vec![12, 14]);
    assert!(lookup(&reg, 11).is_none());
    let mut again = PlacedJob::new(jobs[0].clone());
    again.offset = 8;
    record(&mut reg, 10, again);
    assert_eq!(lookup(&reg, 10).unwrap().offset, 8);
    assert_eq!(reg.len(), 1);
}

#[test]
fn the_candidates_lie_next_to_the_endpoints_and_within_the_bounds() {
    let jobs = init(vec![simple(0, 0, 9, 1), simple(1, 4, 6, 2), simple(2, 9, 12, 3)]).unwrap();
    let mut pts = crit_candidates(&jobs, 0, 12);
    pts.sort();
    pts.dedup();
    // after the births: 1, 5, 10; before the deaths: 8, 5, 11
    assert_eq!(pts, vec![1, 5, 8, 10, 11]);
    let mut pts = crit_candidates(&jobs, 4, 10);
    pts.sort();
    pts.dedup();
    assert_eq!(pts, vec![5, 8]);
    assert!(crit_candidates(&jobs, 5, 6).is_empty());
}

/// A source of the jobs in the order given, and its mirror in the order
/// of their positions.
fn sources(jobs: &JobSet, order: &[usize]) -> (IndexMap<u32, usize>, IndexMap<u32, usize>) {
    let source = order.iter().map(|&i| (jobs[i].id, i)).collect();
    let mirror = (0..jobs.len()).map(|i| (jobs[i].id, i)).collect();
    (source, mirror)
}

#[test]
fn a_strip_is_cut_from_the_end_of_its_source_and_out_of_the_mirror() {
    let jobs = some_jobs();
    // by death: 11 (6), 13 (8), 10 (9), 14 (10), 12 (12)
    let (mut source, mut mirror) = sources(&jobs, &[1, 3, 0, 4, 2]);
    let strip: Vec<VertStripJob> = strip_cuttin(&mut source, &mut mirror, 2, &jobs);
    // the jobs that die last, the one that dies last of all first
    let cut: Vec<u32> = strip.iter().map(|s| s.job.id).collect();
    assert_eq!(cut, vec![12, 14]);
    assert_eq!(source.keys().copied().collect::<Vec<u32>>(), vec![11, 13, 10]);
    assert_eq!(mirror.keys().copied().collect::<Vec<u32>>(), vec![10, 11, 13]);
    // more than is left
    let rest: Vec<VertStripJob> = strip_cuttin(&mut source, &mut mirror, 7, &jobs);
    let cut: Vec<u32> = rest.iter().map(|s| s.job.id).collect();
    assert_eq!(cut, vec![10, 13, 11]);
    assert!(source.is_empty() && mirror.is_empty());
    let none: Vec<VertStripJob> = strip_cuttin(&mut source, &mut mirror, 3, &jobs);
    assert!(none.is_empty());
}

#[test]
fn a_horizontal_strip_hands_out_the_job_born_first_first() {
    let jobs = some_jobs();
    // by birth: 10 (0), 14 (1), 12 (2), 11 (4), 13 (7)
    let (mut source, mut mirror) = sources(&jobs, &[0, 4, 2, 1, 3]);
    let strip: Vec<HorStripJob> = strip_cuttin(&mut source, &mut mirror, 3, &jobs);
    let cut: Vec<u32> = strip.iter().map(|s| s.job.id).collect();
    assert_eq!(cut, vec![12, 11, 13]);
    assert_eq!(strip[0].rank(), 2);
    assert_eq!(mirror.keys().copied().collect::<Vec<u32>>(), vec![10, 14]);
}

#[test]
fn the_jobs_of_a_strip_are_boxed_in_groups_in_their_order() {
    let jobs = some_jobs();
    let first: Vec<VertStripJob> = jobs.iter().map(|j| VertStripJob::new(j.clone())).collect();
    let second: Vec<VertStripJob> =
        jobs.iter().take(2).map(|j| VertStripJob::new(j.clone())).collect();
    let mut ids = BoxIds::new();
    let boxes = strip_box_core(vec![first, second, vec![]], 2, 10, &mut ids);
    let held: Vec<Vec<u32>> = boxes
        .iter()
        .map(|b| b.contents.as_ref().unwrap().iter().map(|j| j.id).collect())
        .collect();
    assert_eq!(held, vec![vec![10, 11], vec![12, 13], vec![14], vec![10, 11]]);
    assert!(boxes.iter().all(|b| b.size == 10));
    let ids_given: Vec<u32> = boxes.iter().map(|b| b.id).collect();
    assert_eq!(ids_given, vec![u32::MAX, u32::MAX - 1, u32::MAX - 2, u32::MAX - 3]);
    assert_eq!((boxes[1].birth, boxes[1].death), (2, 12));
    assert!(ids.has((u32::MAX / 2) as usize - 4));
}
