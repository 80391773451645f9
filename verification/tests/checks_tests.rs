use coreba::algo::placement::{do_naive_fit, get_loose_placement, unbox_and_squeeze};
use coreba::algo::{idealloc, Outcome};
use coreba::analyze::{all_roomy, count_conflicts, has_distinct_ids, placement_is_valid, sizes_fit};
use coreba::helpe::{InterferenceGraph, PlacedJob, PlacedJobRegistry, UnboxCtrl};
use coreba::job::DUMMY_ID;
use coreba::jobset::{all_admissible, get_load, get_max_size, init, interval_graph_coloring};
use coreba::{BoxIds, Instance, Job, JobSet};
use std::sync::Arc;

fn plain(id: u32, birth: usize, death: usize, size: usize) -> Job {
    Job {
        size,
        birth,
        death,
        req_size: size,
        alignment: None,
        contents: None,
        originals_boxed: 0,
        id,
    }
}

fn jobs_of(jobs: Vec<Job>) -> JobSet {
    init(jobs).unwrap()
}

fn graph(jobs: &JobSet) -> (InterferenceGraph, PlacedJobRegistry) {
    let mut ig = InterferenceGraph::new();
    let mut reg = PlacedJobRegistry::new();
    for a in jobs {
        let ns = jobs
            .iter()
            .filter(|b| b.id != a.id && a.birth < b.death && b.birth < a.death)
            .map(|b| b.id)
            .collect();
        ig.insert(a.id, ns);
        reg.insert(a.id, PlacedJob::new(a.clone()));
    }
    (ig, reg)
}

#[test]
fn box_identifiers_come_from_the_top_downward() {
    let mut ids = BoxIds::new();
    assert!(ids.has(0));
    assert!(ids.has((u32::MAX - DUMMY_ID) as usize));
    assert!(!ids.has((u32::MAX - DUMMY_ID) as usize + 1));
    assert_eq!(ids.take(), u32::MAX);
    assert_eq!(ids.take(), u32::MAX - 1);
    assert!(ids.has((u32::MAX - DUMMY_ID) as usize - 2));
    assert!(!ids.has((u32::MAX - DUMMY_ID) as usize - 1));
}

#[test]
fn a_box_spans_its_contents_and_counts_them() {
    let mut ids = BoxIds::new();
    let inner = jobs_of(vec![plain(0, 3, 5, 2), plain(1, 6, 9, 4)]);
    let low = Job::new_box(inner, 4, &mut ids);
    assert_eq!((low.birth, low.death, low.size, low.req_size), (3, 9, 4, 4));
    assert_eq!(low.id, u32::MAX);
    assert_eq!(low.originals_boxed, 2);
    assert!(!low.is_original());
    let other = Arc::new(plain(2, 1, 4, 3));
    let high = Job::new_box(vec![Arc::new(low), other], 7, &mut ids);
    assert_eq!((high.birth, high.death, high.size), (1, 9, 7));
    assert_eq!(high.id, u32::MAX - 1);
    assert_eq!(high.originals_boxed, 3);
    assert_eq!(high.alignment, None);
    assert_eq!(high.contents.as_ref().unwrap().len(), 2);
}

#[test]
fn sizes_fit_when_their_sum_is_within_the_machine_word() {
    assert!(sizes_fit(&jobs_of(vec![])));
    assert!(sizes_fit(&jobs_of(vec![plain(0, 0, 2, usize::MAX - 1), plain(1, 5, 6, 1)])));
    assert!(!sizes_fit(&jobs_of(vec![plain(0, 0, 2, usize::MAX - 1), plain(1, 5, 6, 2)])));
    assert!(!sizes_fit(&jobs_of(vec![plain(0, 0, 2, usize::MAX), plain(1, 5, 6, usize::MAX)])));
}

#[test]
fn identifiers_are_distinct_when_none_comes_twice() {
    assert!(has_distinct_ids(&jobs_of(vec![])));
    assert!(has_distinct_ids(&jobs_of(vec![plain(3, 0, 2, 1), plain(1, 0, 2, 1), plain(2, 0, 2, 1)])));
    assert!(!has_distinct_ids(&jobs_of(vec![plain(3, 0, 2, 1), plain(1, 0, 2, 1), plain(3, 5, 7, 2)])));
}

#[test]
fn jobs_are_roomy_when_each_is_live_at_some_moment() {
    assert!(all_roomy(&jobs_of(vec![])));
    assert!(all_roomy(&jobs_of(vec![plain(0, 0, 2, 1), plain(1, 5, 9, 1)])));
    assert!(!all_roomy(&jobs_of(vec![plain(0, 0, 2, 1), plain(1, 5, 6, 1)])));
}

#[test]
fn squeezing_without_a_graph_stacks_the_jobs_that_meet() {
    let jobs = jobs_of(vec![plain(0, 0, 4, 3), plain(1, 2, 6, 5), plain(2, 5, 9, 2)]);
    let (ig, mut reg) = graph(&jobs);
    let makespan = do_naive_fit(vec![(0, 0), (1, 1), (2, 2)], &mut reg, true, 0);
    assert_eq!(makespan, 8);
    assert_eq!(reg.get(&0).unwrap().offset, 0);
    assert_eq!(reg.get(&1).unwrap().offset, 3);
    // the third job meets the second only, and goes below it
    assert_eq!(reg.get(&2).unwrap().offset, 0);
    assert!(placement_is_valid(&(ig, reg)));
}

#[test]
fn squeezing_without_a_graph_takes_the_jobs_by_their_loose_offsets() {
    let jobs = jobs_of(vec![plain(0, 0, 4, 3), plain(1, 2, 6, 5)]);
    let (_, mut reg) = graph(&jobs);
    let makespan = do_naive_fit(vec![(7, 0), (2, 1)], &mut reg, false, 0);
    assert_eq!(makespan, 8);
    assert_eq!(reg.get(&1).unwrap().offset, 0);
    assert_eq!(reg.get(&0).unwrap().offset, 5);
    let (_, mut reg) = graph(&jobs);
    assert_eq!(do_naive_fit(vec![], &mut reg, true, 0), 0);
}

#[test]
fn placing_an_instance_of_boxes_unboxes_and_squeezes() {
    let all = jobs_of(vec![plain(0, 0, 4, 4), plain(1, 5, 9, 4), plain(2, 2, 7, 4)]);
    let (ig, mut reg) = graph(&all);
    let mut ids = BoxIds::new();
    let first = Job::new_box(vec![all[0].clone(), all[1].clone()], 4, &mut ids);
    let second = Job::new_box(vec![all[2].clone()], 4, &mut ids);
    let boxed = Instance::new(vec![Arc::new(first), Arc::new(second)]);
    let makespan = boxed.place(&ig, &mut reg, 0, usize::MAX, DUMMY_ID, 0);
    assert_eq!(makespan, 8);
    assert_eq!(reg.get(&0).unwrap().offset, 0);
    assert_eq!(reg.get(&1).unwrap().offset, 0);
    assert_eq!(reg.get(&2).unwrap().offset, 4);
    assert!(reg.values().all(|pj| pj.times_squeezed == 1));
    assert!(placement_is_valid(&(ig, reg)));
}

#[test]
fn placing_an_instance_stops_above_the_limit_and_leaves_the_dummy_out() {
    let all = jobs_of(vec![plain(0, 0, 4, 4), plain(1, 2, 7, 4), plain(9, 0, 7, 4)]);
    let (ig, mut reg) = graph(&all);
    let stopped = Instance::new(all.clone()).place(&ig, &mut reg, 0, 7, 9, 0);
    assert_eq!(stopped, usize::MAX);
    let (ig, mut reg) = graph(&all);
    let makespan = Instance::new(all.clone()).place(&ig, &mut reg, 3, 8, 9, 0);
    assert_eq!(makespan, 8);
    assert_eq!(reg.get(&0).unwrap().times_squeezed, 4);
    assert_eq!(reg.get(&1).unwrap().times_squeezed, 4);
    assert_eq!(reg.get(&9).unwrap().times_squeezed, 0);
    assert_eq!(Instance::new(vec![]).place(&ig, &mut reg, 4, 8, 9, 0), usize::MAX);
}

#[test]
fn jobs_of_one_size_stand_in_the_rows_of_their_colouring() {
    // at most three of the six are live together
    let jobs = jobs_of(vec![
        plain(0, 0, 10, 16),
        plain(1, 1, 4, 16),
        plain(2, 2, 6, 16),
        plain(3, 4, 8, 16),
        plain(4, 6, 12, 16),
        plain(5, 10, 12, 16),
    ]);
    let rows = interval_graph_coloring(jobs.clone());
    assert_eq!(rows.len(), 3);
    assert_eq!(get_load(&jobs), 48);
    match idealloc(jobs, 0, 1) {
        Outcome::Placed(placement, makespan) => {
            assert_eq!(makespan, 3 * 16);
            for (r, row) in rows.iter().enumerate() {
                for j in row {
                    assert_eq!(placement.get(&j.id).unwrap().offset, r * 16);
                }
            }
        }
        Outcome::Refine(..) => panic!("no boxing is needed here"),
    }
}

#[test]
fn the_top_of_a_stack_is_not_moved_for_an_alignment() {
    let mut low = plain(0, 0, 4, 4);
    low.alignment = Some(8);
    let mut high = plain(1, 2, 6, 4);
    high.alignment = Some(8);
    match idealloc(jobs_of(vec![low, high]), 0, 1) {
        Outcome::Placed(placement, makespan) => {
            assert_eq!(makespan, 8);
            assert_eq!(placement.get(&0).unwrap().offset, 0);
            // right above its neighbour, on no multiple of eight
            assert_eq!(placement.get(&1).unwrap().offset, 4);
        }
        Outcome::Refine(..) => panic!("no boxing is needed here"),
    }
}

#[test]
fn the_makespan_is_no_less_than_the_load() {
    let jobs = jobs_of(vec![
        plain(0, 0, 6, 5),
        plain(1, 1, 3, 7),
        plain(2, 2, 9, 2),
        plain(3, 4, 8, 11),
        plain(4, 7, 12, 3),
    ]);
    let load = get_load(&jobs);
    // the first, third and fourth are live together
    assert_eq!(load, 18);
    match idealloc(jobs, 0, 0) {
        Outcome::Refine(search, _) => {
            assert_eq!(search.real_load(), 18);
            assert_eq!(search.lives_left(), 0);
            assert!(!search.wants_trial());
            let fallback = search.fallback_makespan();
            assert_eq!(search.best(), fallback);
            let (placement, makespan) = search.finish();
            assert_eq!(makespan, fallback);
            assert!(makespan >= load);
            assert_eq!(placement.len(), 5);
        }
        Outcome::Placed(..) => panic!("these jobs need the fallback placement"),
    }
}

#[test]
fn the_load_of_two_sets_together_lies_between_the_greater_and_the_sum() {
    let a = jobs_of(vec![plain(0, 0, 4, 5), plain(1, 2, 6, 3)]);
    let b = jobs_of(vec![plain(2, 5, 9, 4), plain(3, 3, 8, 2)]);
    let (la, lb) = (get_load(&a), get_load(&b));
    assert_eq!((la, lb), (8, 6));
    let merged = Instance::new(a).merge_with(Instance::new(b));
    assert_eq!(merged.jobs.len(), 4);
    let l = get_load(&merged.jobs);
    // at moment four the first, second and fourth job are live
    assert_eq!(l, 10);
    assert!(l >= la.max(lb) && l <= la + lb);
    assert_eq!(get_max_size(&merged.jobs), 5);
}

#[test]
fn unboxing_rows_of_one_size_stacks_them() {
    let jobs = jobs_of(vec![plain(0, 0, 4, 4), plain(1, 2, 7, 4), plain(2, 5, 9, 4)]);
    let mut loose = get_loose_placement(jobs, 10, UnboxCtrl::SameSizes(4), DUMMY_ID);
    loose.sort();
    assert_eq!(loose, vec![(10, 0), (10, 2), (14, 1)]);
}

#[test]
fn the_pairs_that_meet_are_counted_once_each() {
    assert_eq!(count_conflicts(&jobs_of(vec![])), Some(0));
    assert_eq!(count_conflicts(&jobs_of(vec![plain(0, 0, 4, 1)])), Some(0));
    // the first meets the second and the third; the last meets none
    let jobs = jobs_of(vec![plain(0, 0, 6, 1), plain(1, 1, 3, 1), plain(2, 3, 7, 1), plain(3, 7, 9, 1)]);
    assert_eq!(count_conflicts(&jobs), Some(2));
    let all_meet = jobs_of((0..10).map(|i| plain(i, 0, 5, 1)).collect());
    assert_eq!(count_conflicts(&all_meet), Some(45));
}

#[test]
fn a_set_is_admissible_when_every_job_of_it_is() {
    assert!(all_admissible(&vec![]));
    assert!(all_admissible(&jobs_of(vec![plain(0, 0, 4, 1), plain(1, 2, 3, 8)])));
    let mut asks_too_much = plain(1, 2, 3, 8);
    asks_too_much.req_size = 9;
    assert!(!all_admissible(&vec![Arc::new(plain(0, 0, 4, 1)), Arc::new(asks_too_much)]));
    assert!(!all_admissible(&vec![Arc::new(plain(0, 4, 4, 1))]));
    let mut ids = BoxIds::new();
    let boxed = Job::new_box(jobs_of(vec![plain(0, 0, 4, 1)]), 4, &mut ids);
    assert!(!all_admissible(&vec![Arc::new(boxed)]));
}

#[test]
fn unboxing_opens_the_boxes_where_their_rows_begin() {
    let inner = jobs_of(vec![plain(0, 0, 4, 3), plain(1, 2, 6, 5), plain(2, 1, 5, 4), plain(3, 6, 9, 2)]);
    let mut ids = BoxIds::new();
    // two jobs of different sizes that meet
    let mixed = Job::new_box(vec![inner[0].clone(), inner[1].clone()], 10, &mut ids);
    // two jobs that never meet
    let apart = Job::new_box(vec![inner[2].clone(), inner[3].clone()], 10, &mut ids);
    assert_eq!((mixed.birth, mixed.death), (0, 6));
    assert_eq!((apart.birth, apart.death), (1, 9));
    let boxes = vec![Arc::new(mixed), Arc::new(apart)];
    let mut loose = get_loose_placement(boxes.clone(), 100, UnboxCtrl::SameSizes(10), DUMMY_ID);
    loose.sort();
    // the first box is in the lower row: its smaller job lowest, the
    // other above the one row of that size; the second box is a row
    // higher, and its jobs share its offset
    assert_eq!(loose, vec![(100, 0), (103, 1), (110, 2), (110, 3)]);
    // the same boxes, known not to meet: both are opened at the offset
    let mut loose = get_loose_placement(boxes.clone(), 7, UnboxCtrl::NonOverlapping, DUMMY_ID);
    loose.sort();
    assert_eq!(loose, vec![(7, 0), (7, 2), (7, 3), (10, 1)]);
    // nothing known: the boxes have one size
    let mut loose = get_loose_placement(boxes.clone(), 0, UnboxCtrl::Unknown, 2);
    loose.sort();
    assert_eq!(loose, vec![(0, 0), (3, 1), (10, 3)]);
    // a lone box is opened where it stands
    let mut loose = get_loose_placement(vec![boxes[1].clone()], 40, UnboxCtrl::SameSizes(10), DUMMY_ID);
    loose.sort();
    assert_eq!(loose, vec![(40, 2), (40, 3)]);
}

#[test]
fn unboxing_and_squeezing_tells_how_many_jobs_were_unboxed() {
    let all = jobs_of(vec![plain(0, 0, 4, 4), plain(1, 5, 9, 4), plain(2, 2, 7, 4)]);
    let (ig, mut reg) = graph(&all);
    let mut ids = BoxIds::new();
    let first = Job::new_box(vec![all[0].clone(), all[1].clone()], 4, &mut ids);
    let second = Job::new_box(vec![all[2].clone()], 4, &mut ids);
    let boxes = vec![Arc::new(first), Arc::new(second)];
    let (makespan, taken) = unbox_and_squeeze(boxes.clone(), &ig, &mut reg, 0, usize::MAX, DUMMY_ID, 0);
    assert_eq!((makespan, taken), (8, 3));
    // one of the jobs is the one to leave out
    let (ig, mut reg) = graph(&all);
    let (makespan, taken) = unbox_and_squeeze(boxes.clone(), &ig, &mut reg, 0, usize::MAX, 1, 0);
    assert_eq!((makespan, taken), (8, 2));
    assert_eq!(reg.get(&1).unwrap().times_squeezed, 0);
    // a registry that does not know the jobs is left as it was
    let strangers = jobs_of(vec![plain(7, 0, 4, 4)]);
    let (ig, mut reg) = graph(&strangers);
    let (makespan, taken) = unbox_and_squeeze(boxes, &ig, &mut reg, 0, usize::MAX, DUMMY_ID, 0);
    assert_eq!((makespan, taken), (usize::MAX, 3));
    assert_eq!(reg.get(&7).unwrap().times_squeezed, 0);
}

#[test]
fn unboxing_lists_a_job_once() {
    let all = jobs_of(vec![plain(0, 0, 4, 4), plain(1, 5, 9, 4), plain(2, 2, 7, 4), plain(3, 1, 3, 2)]);
    let mut ids = BoxIds::new();
    let inner = Job::new_box(vec![all[0].clone(), all[3].clone()], 6, &mut ids);
    let outer = Job::new_box(vec![Arc::new(inner), all[1].clone()], 6, &mut ids);
    let other = Job::new_box(vec![all[2].clone()], 6, &mut ids);
    let loose = get_loose_placement(vec![Arc::new(outer), Arc::new(other)], 0, UnboxCtrl::SameSizes(6), DUMMY_ID);
    let mut listed: Vec<u32> = loose.iter().map(|e| e.1).collect();
    listed.sort();
    assert_eq!(listed, vec![0, 1, 2, 3]);
}
