use coreba::helpe::{PlacedJob, T2Control};
use coreba::instance::split_at_points;
use coreba::jobset::init;
use coreba::{Instance, Job, JobSet};
use std::collections::BTreeSet;
use std::sync::Arc;

fn job(id: u32, birth: usize, death: usize, size: usize) -> Job {
    Job {
        size,
        birth,
        death,
        req_size: size,
        alignment: None,
        contents: None,
        originals_boxed: 0,
        id,
    }
}

fn set(jobs: Vec<Job>) -> JobSet {
    init(jobs).unwrap()
}

fn ids(jobs: &JobSet) -> Vec<u32> {
    jobs.iter().map(|j| j.id).collect()
}

#[test]
fn job_predicates() {
    let j = job(3, 2, 6, 5);
    assert!(j.is_live_at(3));
    assert!(!j.is_live_at(2));
    assert!(!j.is_live_at(6));
    assert!(j.lives_within(&(2, 6)));
    assert!(!j.lives_within(&(3, 6)));
    assert!(j.is_original());
    assert!(j.dies_before(6));
    assert!(!j.dies_before(5));
    assert!(j.born_after(2));
    assert!(!j.born_after(3));
    assert_eq!(j.lifetime(), 3);
    assert_eq!(j.area(), 15);
    assert_eq!(j.get_id(), 3);
    assert_eq!(j.get_req_size(), 5);
    assert_eq!(j.get_alignment(), None);
    let blank = Job::new();
    assert_eq!((blank.size, blank.birth, blank.death, blank.id), (0, 0, 0, 0));
}

#[test]
fn corrected_offsets() {
    let mut j = job(0, 0, 5, 3);
    j.alignment = Some(4);
    let pj = PlacedJob::new(Arc::new(j));
    assert_eq!(pj.offset, 0);
    assert_eq!(pj.times_squeezed, 0);
    assert_eq!(pj.next_avail_offset(), 3);
    // the address is a multiple already
    assert_eq!(pj.get_corrected_offset(0, 0), 0);
    assert_eq!(pj.get_corrected_offset(0, 8), 8);
    assert_eq!(pj.get_corrected_offset(4, 4), 4);
    // below the first multiple: a - s
    assert_eq!(pj.get_corrected_offset(1, 0), 3);
    assert_eq!(pj.get_corrected_offset(1, 2), 3);
    // otherwise the next multiple, less the start
    assert_eq!(pj.get_corrected_offset(0, 5), 8);
    assert_eq!(pj.get_corrected_offset(3, 6), 9);
    assert_eq!(pj.checked_corrected_offset(0, usize::MAX), None);
    assert_eq!(pj.checked_corrected_offset(usize::MAX, 1), Some(1));
    let plain = PlacedJob::new(Arc::new(job(1, 0, 5, 3)));
    assert_eq!(plain.get_corrected_offset(3, 7), 7);
    assert!(plain.overlaps_with(&pj));
    let later = PlacedJob::new(Arc::new(job(2, 5, 9, 3)));
    assert!(!later.overlaps_with(&pj));
}

#[test]
fn horizon_heights_and_splitting_by_height() {
    let inst = Instance::new(set(vec![
        job(0, 3, 8, 4),
        job(1, 1, 5, 9),
        job(2, 2, 12, 6),
    ]));
    assert_eq!(inst.get_horizon(), (1, 12));
    assert_eq!(inst.min_max_height(), (4, 9));
    let (small, high) = inst.split_by_height(6);
    assert_eq!(ids(&small.jobs), vec![0, 2]);
    assert_eq!(ids(&high.jobs), vec![1]);
    let merged = high.merge_with(small);
    assert_eq!(ids(&merged.jobs), vec![1, 0, 2]);
    assert_eq!(merged.min_max_height(), (4, 9));
    assert_eq!(merged.total_originals_boxed(), 0);
    assert!(merged.check_boxed_originals(0));
    assert!(!merged.check_boxed_originals(3));
    let empty = Instance::new(vec![]);
    assert_eq!(empty.get_horizon(), (usize::MAX, 0));
    assert_eq!(empty.min_max_height(), (usize::MAX, 0));
}

#[test]
fn merging_in_place_notes_the_heights() {
    let mut a = Instance::new(set(vec![job(0, 3, 8, 4)]));
    let b = Instance::new(set(vec![job(1, 1, 5, 9)]));
    a.merge_via_ref(b);
    assert_eq!(ids(&a.jobs), vec![0, 1]);
    assert_eq!(a.info.min_max_height, Some((4, 9)));
    assert_eq!(a.info.load, None);
    a.info.set_load(13);
    a.info.set_heights((4, 9));
    assert_eq!(a.info.load, Some(13));
}

#[test]
fn splitting_around_critical_points() {
    let jobs = set(vec![
        job(0, 0, 3, 1),
        job(1, 2, 6, 1),
        job(2, 5, 9, 1),
        job(3, 7, 10, 1),
        job(4, 0, 1, 1),
        job(5, 4, 5, 1),
    ]);
    let (live, groups) = split_at_points(jobs.clone(), &vec![0, 4, 7, 10]);
    let mut live_ids = ids(&live);
    live_ids.sort();
    assert_eq!(live_ids, vec![1, 2]);
    let seen: Vec<(usize, Vec<u32>)> = groups
        .iter()
        .map(|(q, x)| {
            let mut v = ids(&x.jobs);
            v.sort();
            (*q, v)
        })
        .collect();
    assert_eq!(seen, vec![(0, vec![0, 4]), (1, vec![5]), (2, vec![3])]);
    let pts: BTreeSet<usize> = [10, 0, 7, 4].into_iter().collect();
    let (live, groups) = Instance::new(jobs).split_by_liveness(&pts);
    assert_eq!(live.len(), 2);
    assert_eq!(groups.len(), 3);
}

#[test]
fn buckets_by_height() {
    let inst = Instance::new(set(vec![
        job(0, 0, 3, 1),
        job(1, 0, 3, 2),
        job(2, 0, 3, 3),
        job(3, 0, 3, 7),
        job(4, 0, 3, 4),
    ]));
    let buckets = Instance::make_buckets(inst, &vec![1, 1, 2, 4, 8]);
    let seen: Vec<(usize, Vec<u32>)> = buckets
        .iter()
        .map(|(h, x)| (*h, ids(&x.jobs)))
        .collect();
    assert_eq!(
        seen,
        vec![(1, vec![0]), (2, vec![1]), (4, vec![2, 4]), (8, vec![3])]
    );
}

#[test]
fn a_first_control_has_a_point_where_a_job_is_live() {
    let inst = Instance::new(set(vec![job(0, 2, 5, 1), job(1, 4, 9, 1)]));
    for _ in 0..20 {
        let ctrl = T2Control::new(&inst);
        assert_eq!(ctrl.bounding_interval, (2, 9));
        assert!(ctrl.critical_points.contains(&2));
        assert!(ctrl.critical_points.contains(&9));
        assert_eq!(ctrl.critical_points.len(), 3);
        let mid = *ctrl.critical_points.iter().nth(1).unwrap();
        assert!(inst.jobs.iter().any(|j| j.is_live_at(mid)));
        let p = T2Control::gen_crit(&inst, 2, 9);
        assert!(2 < p && p < 9);
        assert!(inst.jobs.iter().any(|j| j.is_live_at(p)));
    }
}
