use coreba::ingest::{
    csv_fields, csv_job, find_field_end, lifetime_shift, parse_number, plc_job, read_word,
    shift_generations, slice_job, InpuType, PLC_FIELDS_NUM,
};
use coreba::jobset::init;
use coreba::Job;

fn record(words: [u64; 8]) -> Vec<u8> {
    let mut bytes = Vec::new();
    for w in words {
        bytes.extend_from_slice(&w.to_be_bytes());
    }
    bytes
}

fn dirty(id: u32, birth: usize, death: usize, size: usize) -> Job {
    Job {
        size,
        birth,
        death,
        req_size: size,
        alignment: None,
        contents: None,
        originals_boxed: 0,
        id,
    }
}

#[test]
fn a_word_is_read_with_its_first_byte_the_greatest() {
    let bytes = [9, 0, 0, 0, 0, 0, 0, 1, 2, 0xff];
    assert_eq!(read_word(&bytes, 1), 258);
    assert_eq!(read_word(&bytes, 0), (9 << 56) + 1);
    assert_eq!(read_word(&bytes, 2), (1 << 16) + (2 << 8) + 0xff);
    assert_eq!(read_word(&[0xff; 8], 0), u64::MAX);
}

#[test]
fn a_binary_record_gives_a_job() {
    assert_eq!(PLC_FIELDS_NUM, 8);
    let j = plc_job(&record([7, 1, 9, 64, 1234, 5678, 16, 60])).unwrap();
    assert_eq!((j.id, j.birth, j.death, j.size), (7, 1, 9, 64));
    assert_eq!(j.alignment, Some(16));
    assert_eq!(j.req_size, 60);
    assert!(j.contents.is_none());
    assert_eq!(j.originals_boxed, 0);
}

#[test]
fn a_binary_record_without_alignment_has_none() {
    let j = plc_job(&record([0, 3, 4, 5, 0, 0, 0, 5])).unwrap();
    assert_eq!(j.alignment, None);
    assert_eq!((j.id, j.birth, j.death, j.size, j.req_size), (0, 3, 4, 5, 5));
}

#[test]
fn a_binary_record_with_too_great_an_identifier_gives_nothing() {
    assert!(plc_job(&record([1 << 32, 1, 9, 64, 0, 0, 0, 64])).is_none());
    assert!(plc_job(&record([u32::MAX as u64, 1, 9, 64, 0, 0, 0, 64])).is_some());
}

#[test]
fn numbers_are_read_with_or_without_a_plus_sign() {
    let line = b"123,+42,,+,12a,99999999999999999999999,00017";
    assert_eq!(parse_number(line, 0, 3), Some(123));
    assert_eq!(parse_number(line, 0, 2), Some(12));
    assert_eq!(parse_number(line, 4, 7), Some(42));
    // an empty field, and a plus sign alone
    assert_eq!(parse_number(line, 8, 8), None);
    assert_eq!(parse_number(line, 9, 10), None);
    assert_eq!(parse_number(line, 11, 14), None);
    // beyond the machine word
    assert_eq!(parse_number(line, 15, 38), None);
    assert_eq!(parse_number(line, 39, 44), Some(17));
    // a comma is no digit
    assert_eq!(parse_number(line, 0, 4), None);
    let max = usize::MAX.to_string();
    assert_eq!(parse_number(max.as_bytes(), 0, max.len()), Some(usize::MAX));
}

#[test]
fn a_field_ends_at_the_next_comma_or_with_the_line() {
    let line = b"ab,c,,de";
    assert_eq!(find_field_end(line, 0), 2);
    assert_eq!(find_field_end(line, 2), 2);
    assert_eq!(find_field_end(line, 3), 4);
    assert_eq!(find_field_end(line, 5), 5);
    assert_eq!(find_field_end(line, 6), 8);
    assert_eq!(find_field_end(line, 8), 8);
}

#[test]
fn a_line_gives_birth_death_and_size_after_its_first_field() {
    assert_eq!(csv_fields(b"0,1,9,64"), Some((1, 9, 64)));
    assert_eq!(csv_fields(b"name,+1,9,64,more,fields"), Some((1, 9, 64)));
    assert_eq!(csv_fields(b",10,20,30"), Some((10, 20, 30)));
}

#[test]
fn a_line_with_a_field_missing_or_no_number_gives_nothing() {
    assert_eq!(csv_fields(b""), None);
    assert_eq!(csv_fields(b"0,1,9"), None);
    assert_eq!(csv_fields(b"0,1"), None);
    assert_eq!(csv_fields(b"0,1,x,64"), None);
    assert_eq!(csv_fields(b"0,,9,64"), None);
    assert_eq!(csv_fields(b"0,1,9,"), None);
    assert_eq!(csv_fields(b"0,1,9,-4"), None);
    assert_eq!(csv_fields(b"0,1,9, 4"), None);
    assert_eq!(csv_fields(b"0,1,9,99999999999999999999999"), None);
}

#[test]
fn a_job_of_a_line_asks_for_its_whole_size() {
    let j = csv_job(1, 9, 64, 5);
    assert_eq!((j.birth, j.death, j.size, j.req_size, j.id), (1, 9, 64, 64, 5));
    assert_eq!(j.alignment, None);
    assert!(j.contents.is_none());
    assert_eq!(j.originals_boxed, 0);
}

#[test]
fn jobs_move_on_with_the_generations_that_ended_before_them() {
    let jobs = init(vec![dirty(0, 0, 2, 8), dirty(1, 1, 3, 16), dirty(2, 3, 5, 24)]).unwrap();
    let out = shift_generations(&jobs, 1).unwrap();
    let got: Vec<(u32, usize, usize, usize)> =
        out.iter().map(|j| (j.id, j.birth, j.death, j.size)).collect();
    // the first two are born before any death; the third after the first
    // generation has ended
    assert_eq!(got, vec![(0, 0, 3, 8), (1, 1, 4, 16), (2, 4, 7, 24)]);
    assert!(out.iter().all(|j| j.req_size == j.size && j.alignment.is_none()));
}

#[test]
fn every_generation_moves_the_later_jobs_one_step_further() {
    // three jobs in a row: each dies when the next is born
    let jobs = init(vec![dirty(0, 0, 1, 1), dirty(1, 1, 2, 1), dirty(2, 2, 3, 1)]).unwrap();
    let out = shift_generations(&jobs, 0).unwrap();
    let got: Vec<(u32, usize, usize)> = out.iter().map(|j| (j.id, j.birth, j.death)).collect();
    assert_eq!(got, vec![(0, 0, 1), (1, 2, 3), (2, 4, 5)]);
    assert!(shift_generations(&init(vec![]).unwrap(), 3).unwrap().is_empty());
}

#[test]
fn a_death_beyond_the_machine_word_gives_nothing() {
    let jobs = init(vec![dirty(0, 0, 2, 8), dirty(1, 5, usize::MAX, 8)]).unwrap();
    assert!(shift_generations(&jobs, 0).is_none());
    let jobs = init(vec![dirty(0, 0, 2, 8), dirty(1, 5, usize::MAX - 1, 8)]).unwrap();
    assert!(shift_generations(&jobs, 0).is_some());
    assert!(shift_generations(&jobs, 1).is_none());
}

#[test]
fn every_kind_of_file_has_its_shift() {
    assert_eq!(lifetime_shift(InpuType::ExCSV), Some(1));
    assert_eq!(lifetime_shift(InpuType::InExCSV), Some(1));
    assert_eq!(lifetime_shift(InpuType::InCSV), Some(2));
    assert_eq!(lifetime_shift(InpuType::PLC), Some(0));
    assert_eq!(lifetime_shift(InpuType::TRC), None);
}

#[test]
fn a_buffer_gives_a_job_that_dies_two_steps_after_its_end() {
    let j = slice_job(3, 7, 64, 16, 5).unwrap();
    assert_eq!((j.birth, j.death, j.size, j.req_size, j.id), (3, 9, 64, 64, 5));
    assert_eq!(j.alignment, Some(16));
    assert!(j.contents.is_none());
    assert_eq!(j.originals_boxed, 0);
    assert!(slice_job(0, usize::MAX - 2, 1, 1, 0).is_some());
    assert!(slice_job(0, usize::MAX - 1, 1, 1, 0).is_none());
}
