use coreba::algo::{idealloc, Outcome};
use coreba::jobset::init;
use coreba::Job;

fn job(id: u32, birth: usize, death: usize, size: usize, alignment: Option<usize>) -> Job {
    Job {
        size,
        birth,
        death,
        req_size: size,
        alignment,
        contents: None,
        originals_boxed: 0,
        id,
    }
}

#[test]
fn jobs_that_never_meet_all_go_to_the_bottom() {
    let set = init(vec![
        job(0, 0, 1, 10, None),
        job(1, 2, 3, 20, None),
        job(2, 4, 5, 5, None),
    ])
    .unwrap();
    match idealloc(set, 0, 1) {
        Outcome::Placed(placement, makespan) => {
            assert_eq!(makespan, 20);
            assert_eq!(placement.len(), 3);
            for id in 0..3u32 {
                assert_eq!(placement.get(&id).unwrap().offset, 0);
            }
        }
        Outcome::Refine(..) => panic!("no boxing is needed here"),
    }
}

#[test]
fn a_chain_of_equal_sizes_takes_two_rows() {
    let set = init(vec![
        job(0, 0, 2, 8, None),
        job(1, 1, 3, 8, None),
        job(2, 2, 4, 8, None),
    ])
    .unwrap();
    match idealloc(set, 0, 1) {
        Outcome::Placed(placement, makespan) => {
            assert_eq!(makespan, 16);
            assert_eq!(placement.get(&0).unwrap().offset, 0);
            assert_eq!(placement.get(&1).unwrap().offset, 8);
            assert_eq!(placement.get(&2).unwrap().offset, 0);
        }
        Outcome::Refine(..) => panic!("no boxing is needed here"),
    }
}

#[test]
fn two_jobs_of_different_sizes_that_meet_are_stacked() {
    let set = init(vec![job(0, 0, 2, 4, None), job(1, 1, 3, 6, None)]).unwrap();
    match idealloc(set, 0, 0) {
        Outcome::Refine(search, input) => {
            assert_eq!(input.jobs.len(), 2);
            assert_eq!(search.real_load(), 10);
            let (placement, makespan) = search.finish();
            assert_eq!(makespan, 10);
            let a = placement.get(&0).unwrap().offset;
            let b = placement.get(&1).unwrap().offset;
            assert!((a == 0 && b == 4) || (a == 6 && b == 0));
        }
        Outcome::Placed(..) => panic!("these jobs need the fallback placement"),
    }
}

#[test]
fn a_lone_aligned_job_stands_on_a_multiple_of_its_alignment() {
    let set = init(vec![job(0, 0, 5, 3, Some(4))]).unwrap();
    match idealloc(set, 0, 1) {
        Outcome::Placed(placement, makespan) => {
            assert_eq!(makespan, 3);
            assert_eq!(placement.get(&0).unwrap().offset % 4, 0);
        }
        Outcome::Refine(..) => panic!("no boxing is needed here"),
    }
    let set = init(vec![job(0, 0, 5, 3, Some(4))]).unwrap();
    match idealloc(set, 6, 1) {
        Outcome::Placed(placement, _) => {
            assert_eq!(placement.get(&0).unwrap().offset, 2);
        }
        Outcome::Refine(..) => panic!("no boxing is needed here"),
    }
}
