use coreba::helpe::EventKind;
use coreba::jobset::{
    gap_finder, get_events, get_load, get_max_size, get_total_originals_boxed, init,
    interval_graph_coloring, split_ris,
};
use coreba::{BoxIds, Job, JobSet};
use std::sync::Arc;

fn job(id: u32, birth: usize, death: usize, size: usize) -> Job {
    Job {
        size,
        birth,
        death,
        req_size: size,
        alignment: None,
        contents: None,
        originals_boxed: 0,
        id,
    }
}

fn set(jobs: Vec<Job>) -> JobSet {
    init(jobs).unwrap()
}

#[test]
fn load_of_two_overlapping_jobs_is_their_sum() {
    let set = set(vec![job(0, 0, 2, 4), job(1, 1, 3, 6)]);
    assert_eq!(get_load(&set), 10);
}

#[test]
fn a_job_born_when_another_dies_does_not_add_to_its_load() {
    let set = set(vec![job(0, 0, 5, 7), job(1, 5, 9, 9), job(2, 9, 12, 3)]);
    assert_eq!(get_load(&set), 9);
}

#[test]
fn load_of_no_jobs_is_zero() {
    let set: JobSet = vec![];
    assert_eq!(get_load(&set), 0);
}

#[test]
fn events_come_by_time_with_deaths_before_births() {
    let set = set(vec![job(7, 3, 6, 1), job(8, 0, 3, 1)]);
    let evts = get_events(&set);
    assert_eq!(evts.len(), 4);
    let seen: Vec<(usize, bool, u32)> = evts
        .iter()
        .map(|e| (e.time, e.evt_t == EventKind::Birth, e.job.id))
        .collect();
    assert_eq!(
        seen,
        vec![(0, true, 8), (3, false, 8), (3, true, 7), (6, false, 7)]
    );
    assert_eq!(evts[0].index, 1);
    assert_eq!(evts[2].index, 0);
}

#[test]
fn the_gatekeeper_passes_sound_jobs_in_their_order() {
    let set = init(vec![job(4, 0, 2, 4), job(2, 1, 3, 6)]).unwrap();
    assert_eq!(set.len(), 2);
    assert_eq!(set[0].id, 4);
    assert_eq!(set[1].id, 2);
}

#[test]
fn the_gatekeeper_stops_at_a_job_without_size() {
    let err = init(vec![job(0, 0, 2, 4), job(1, 1, 3, 0)]).unwrap_err();
    assert_eq!(err.message, "Job with 0 size found!");
    assert_eq!(err.culprit.id, 1);
}

#[test]
fn the_gatekeeper_stops_at_a_job_that_dies_before_it_is_born() {
    let err = init(vec![job(3, 5, 5, 4)]).unwrap_err();
    assert_eq!(err.message, "Job with birth >= death found!");
    assert_eq!(err.culprit.id, 3);
}

#[test]
fn the_gatekeeper_stops_at_an_alignment_of_zero() {
    let mut j = job(9, 0, 5, 4);
    j.alignment = Some(0);
    let err = init(vec![j]).unwrap_err();
    assert_eq!(err.message, "Job with 0 alignment found!");
    assert_eq!(err.culprit.id, 9);
}

#[test]
fn the_gatekeeper_stops_at_a_box() {
    let mut j = job(9, 0, 5, 4);
    j.contents = Some(vec![Arc::new(job(1, 0, 5, 4))]);
    let err = init(vec![j]).unwrap_err();
    assert_eq!(err.message, "Unoriginal job found! (non-empty contents)");
    let mut j = job(9, 0, 5, 4);
    j.originals_boxed = 2;
    let err = init(vec![j]).unwrap_err();
    assert_eq!(
        err.message,
        "Unoriginal job found! (non-zero originals_boxed)"
    );
}

#[test]
fn the_gatekeeper_checks_aligned_jobs_in_full() {
    let mut j = job(9, 0, 5, 4);
    j.alignment = Some(8);
    j.req_size = 5;
    let err = init(vec![j]).unwrap_err();
    assert_eq!(err.message, "Job with req > alloc size found!");
    assert_eq!(err.culprit.id, 9);
}

#[test]
fn the_gatekeeper_names_the_first_job_that_fails() {
    let err = init(vec![job(0, 0, 2, 4), job(1, 3, 3, 1), job(2, 1, 3, 0)]).unwrap_err();
    assert_eq!(err.culprit.id, 1);
}

#[test]
fn a_chain_of_jobs_is_coloured_in_two_rows() {
    let rows = interval_graph_coloring(set(vec![
        job(0, 0, 2, 8),
        job(1, 1, 3, 8),
        job(2, 2, 4, 8),
    ]));
    assert_eq!(rows.len(), 2);
    let row0: Vec<u32> = rows[0].iter().map(|j| j.id).collect();
    let row1: Vec<u32> = rows[1].iter().map(|j| j.id).collect();
    assert_eq!(row0, vec![0, 2]);
    assert_eq!(row1, vec![1]);
}

#[test]
fn colouring_uses_as_many_rows_as_jobs_are_live_together() {
    let rows = interval_graph_coloring(set(vec![
        job(0, 0, 10, 1),
        job(1, 1, 4, 2),
        job(2, 2, 6, 3),
        job(3, 4, 8, 4),
        job(4, 6, 9, 5),
    ]));
    assert_eq!(rows.len(), 3);
    let mut all: Vec<u32> = rows.iter().flatten().map(|j| j.id).collect();
    all.sort();
    assert_eq!(all, vec![0, 1, 2, 3, 4]);
    for row in &rows {
        for pair in row.windows(2) {
            assert!(pair[0].death <= pair[1].birth);
        }
    }
    // the lowest free row is taken
    assert_eq!(rows[1].iter().map(|j| j.id).collect::<Vec<_>>(), vec![1, 3]);
    assert_eq!(rows[2].iter().map(|j| j.id).collect::<Vec<_>>(), vec![2, 4]);
}

#[test]
fn colouring_the_rows_again_gives_as_many_rows() {
    let rows = interval_graph_coloring(set(vec![
        job(0, 0, 10, 1),
        job(1, 1, 4, 2),
        job(2, 2, 6, 3),
        job(3, 4, 8, 4),
    ]));
    let again: JobSet = rows.iter().flatten().cloned().collect();
    assert_eq!(interval_graph_coloring(again).len(), rows.len());
}

#[test]
fn gaps_of_a_row_within_its_bounds() {
    let row = set(vec![job(0, 2, 4, 1), job(1, 4, 6, 1), job(2, 8, 9, 1)]);
    let gaps: Vec<usize> = gap_finder(&row, (0, 12)).into_iter().collect();
    assert_eq!(gaps, vec![0, 2, 6, 8, 9, 12]);
    let gaps: Vec<usize> = gap_finder(&row, (2, 9)).into_iter().collect();
    assert_eq!(gaps, vec![6, 8]);
    let empty: JobSet = vec![];
    let gaps: Vec<usize> = gap_finder(&empty, (3, 5)).into_iter().collect();
    assert_eq!(gaps, vec![3, 5]);
    let gaps: Vec<usize> = gap_finder(&empty, (5, 5)).into_iter().collect();
    assert!(gaps.is_empty());
}

#[test]
fn a_lone_job_leaves_a_gap_on_either_side() {
    let row = set(vec![job(0, 2, 4, 1)]);
    let gaps: Vec<usize> = gap_finder(&row, (0, 10)).into_iter().collect();
    assert_eq!(gaps, vec![0, 2, 4, 10]);
}

#[test]
fn greatest_size_and_boxed_count() {
    let jobs = set(vec![job(0, 0, 2, 4), job(1, 1, 3, 9), job(2, 1, 3, 6)]);
    assert_eq!(get_max_size(&jobs), 9);
    assert_eq!(get_total_originals_boxed(&jobs), 0);
    let mut ids = BoxIds::new();
    let inner = Job::new_box(jobs, 19, &mut ids);
    assert_eq!(inner.originals_boxed, 3);
    assert_eq!(inner.id, u32::MAX);
    assert_eq!(inner.birth, 0);
    assert_eq!(inner.death, 3);
    assert_eq!(inner.size, 19);
    let outer = Job::new_box(
        vec![Arc::new(inner), Arc::new(job(5, 7, 9, 2))],
        30,
        &mut ids,
    );
    assert_eq!(outer.originals_boxed, 4);
    assert_eq!(outer.id, u32::MAX - 1);
    assert_eq!(outer.death, 9);
    assert_eq!(get_total_originals_boxed(&vec![Arc::new(outer)]), 4);
}

#[test]
fn groups_around_critical_points() {
    let jobs = set(vec![
        job(0, 0, 3, 1),
        job(1, 2, 6, 1),
        job(2, 5, 9, 1),
        job(3, 7, 10, 1),
        job(4, 0, 1, 1),
    ]);
    // three points: split around the middle one
    let groups = split_ris(jobs.clone(), &[0, 5, 10]);
    let ids: Vec<Vec<u32>> = groups
        .iter()
        .map(|g| g.iter().map(|j| j.id).collect())
        .collect();
    assert_eq!(ids, vec![vec![1], vec![0, 4], vec![2, 3]]);
    // fewer than three points: one group
    let groups = split_ris(jobs.clone(), &[0, 10]);
    assert_eq!(groups.len(), 1);
    assert_eq!(groups[0].len(), 5);
    // five points: the middle is pts[2]
    let groups = split_ris(jobs, &[0, 2, 6, 8, 10]);
    let ids: Vec<Vec<u32>> = groups
        .iter()
        .map(|g| g.iter().map(|j| j.id).collect())
        .collect();
    assert_eq!(ids, vec![vec![2], vec![0, 1, 4], vec![3]]);
}
