use ddarecover::engine::CompletionAction;
use ddarecover::engine::Engine;
use ddarecover::engine::Stats;
use ddarecover::engine::is_all_zeros;
use ddarecover::engine::range_to_reads;
use ddarecover::engine::split_reads;
use ddarecover::map_file::MapFile;
use ddarecover::map_file::SectorState;
use ddarecover::phase::Phase;
use ddarecover::tagged_range::Region;

const SECTOR: u64 = 512;
const BLOCK: u64 = 4096;

fn runs_of(m: &MapFile) -> Vec<Region> {
    let mut it = m.iter();
    let mut rs: Vec<Region> = Vec::new();
    while let Some(r) = it.next() {
        rs.push(r);
    }
    rs
}

/// Drives the engine the way the surrounding program would, against a
/// source where every read inside a range of `bad` fails with an error and
/// every other read succeeds in full. Gives up after `max_passes` passes of
/// any one phase, the way the operator's interrupt would.
fn drive(e: &mut Engine, bad: &[(u64, u64)], zero: &[(u64, u64)], max_passes: usize) {
    loop {
        if e.is_phase_complete() {
            match e.map_file().get_phase().next() {
                Some(_) => e.next_phase(),
                None => break,
            }
            continue;
        }
        e.begin_phase();
        let mut passes = 0;
        while !e.is_phase_complete() && passes < max_passes {
            loop {
                let reads = e.refill_reads(128);
                if reads.is_empty() {
                    break;
                }
                for (start, end) in reads {
                    e.note_submitted(end);
                    let size = end - start;
                    let failed = bad.iter().any(|&(lo, hi)| start < hi && end > lo);
                    let result: i64 = if failed { -5 } else { size as i64 };
                    let is_zero = zero.iter().any(|&(lo, hi)| start >= lo && end <= hi);
                    let act = e.apply_completion(start, size, result, is_zero);
                    if failed {
                        assert_eq!(act, CompletionAction::MarkedBad);
                    } else if is_zero {
                        assert_eq!(act, CompletionAction::SkipZeros);
                    } else {
                        assert_eq!(act, CompletionAction::WriteData);
                    }
                }
            }
            e.start_next_pass();
            passes += 1;
        }
        if passes >= max_passes {
            // the phase still has work it cannot finish: move on as a
            // shutdown would end the session
            break;
        }
    }
}

fn engine_over(size: u64) -> Engine {
    let map = MapFile::new(size);
    Engine::new(map, SECTOR, BLOCK)
}

#[test]
fn clean_run_rescues_everything() {
    let size: u64 = 1 << 20;
    let mut e = engine_over(size);
    drive(&mut e, &[], &[], 4);
    assert_eq!(e.map_file().get_phase(), Phase::Finished);
    assert_eq!(
        runs_of(e.map_file()),
        vec![Region { start: 0, length: size, tag: SectorState::Rescued }]
    );
    let h = e.histogram();
    assert_eq!(h.get(SectorState::Rescued), size);
    assert_eq!(h.get(SectorState::Untried), 0);
    assert_eq!(e.stats().good, size);
    assert_eq!(e.stats().bad, 0);
}

#[test]
fn one_bad_block_stays_bad() {
    let size: u64 = 8192;
    let mut e = engine_over(size);
    drive(&mut e, &[(4096, 8192)], &[], 2);
    let rs = runs_of(e.map_file());
    assert_eq!(
        rs,
        vec![
            Region { start: 0, length: 4096, tag: SectorState::Rescued },
            Region { start: 4096, length: 4096, tag: SectorState::Bad },
        ]
    );
    let h = e.histogram();
    assert_eq!(h.get(SectorState::Rescued), 4096);
    assert_eq!(h.get(SectorState::Bad), 4096);
}

#[test]
fn retrying_reads_a_lone_bad_sector_at_sector_width() {
    // a single bad sector inside an otherwise rescued device: the retrying
    // phase issues one sector-sized read for it, so one recovered sector
    // can be salvaged without touching its neighbours
    let size: u64 = 8192;
    let mut map = MapFile::new(size);
    map.put(0..size, SectorState::Rescued);
    map.put(4608..5120, SectorState::Bad);
    map.set_phase(&Phase::Retrying);
    let mut e = Engine::new(map, SECTOR, BLOCK);
    let reads = e.refill_reads(128);
    assert_eq!(reads, vec![(4608, 5120)]);
    // this time the sector reads fine
    e.note_submitted(5120);
    let act = e.apply_completion(4608, 512, 512, false);
    assert_eq!(act, CompletionAction::WriteData);
    assert_eq!(
        runs_of(e.map_file()),
        vec![Region { start: 0, length: size, tag: SectorState::Rescued }]
    );
}

#[test]
fn zero_reads_are_rescued_but_not_written() {
    let size: u64 = 4096;
    let mut e = engine_over(size);
    drive(&mut e, &[], &[(0, 4096)], 2);
    assert_eq!(
        runs_of(e.map_file()),
        vec![Region { start: 0, length: size, tag: SectorState::Rescued }]
    );
}

#[test]
fn resume_from_persisted_map_selects_the_same_work() {
    let size: u64 = 16384;
    let mut e = engine_over(size);
    // run the first block by hand, then stop after a sync point
    let reads = e.refill_reads(1);
    assert_eq!(reads, vec![(0, 4096)]);
    e.note_submitted(4096);
    e.apply_completion(0, 4096, 4096, false);
    assert_eq!(e.map_file().get_pos(), 4096);
    let persisted = e.map_file().to_bytes();

    // a new session loads the same map and picks up where the old one left
    let map2 = MapFile::from_bytes(persisted.as_slice()).expect("persisted map must load");
    assert_eq!(map2.get_pos(), 4096);
    assert_eq!(map2.get_phase(), Phase::Copying);
    assert_eq!(map2.get_pass(), 1);
    assert_eq!(runs_of(&map2), runs_of(e.map_file()));
    let e2 = Engine::new(map2, SECTOR, BLOCK);
    let old_work = e.refill_reads(128);
    let new_work = e2.refill_reads(128);
    assert_eq!(old_work, new_work);
    // no read reaches below the sector holding the scan position
    for &(start, _end) in &new_work {
        assert!(start >= 4096);
    }
}

#[test]
fn pass_and_phase_completion_follow_the_map() {
    let size: u64 = 8192;
    let mut e = engine_over(size);
    assert!(!e.is_phase_complete());
    assert!(!e.is_pass_complete());
    // rescue everything: the copying phase is done
    let reads = e.refill_reads(128);
    for (start, end) in reads {
        e.note_submitted(end);
        e.apply_completion(start, end - start, (end - start) as i64, false);
    }
    assert!(e.is_phase_complete());
    assert!(e.is_pass_complete());
    e.next_phase();
    assert_eq!(e.map_file().get_phase(), Phase::Trimming);
    // the dormant phases have nothing to do
    assert!(e.is_phase_complete());
}

#[test]
fn refill_is_empty_only_when_no_work_remains() {
    let size: u64 = 8192;
    let mut e = engine_over(size);
    assert!(!e.refill_reads(128).is_empty());
    let reads = e.refill_reads(128);
    for (start, end) in reads {
        e.note_submitted(end);
        e.apply_completion(start, end - start, -5, false);
    }
    // everything is bad now; the copying pass has nothing left
    assert!(e.refill_reads(128).is_empty());
    assert!(e.is_pass_complete());
}

#[test]
fn completion_counters_accumulate() {
    let size: u64 = 8192;
    let mut e = engine_over(size);
    e.apply_completion(0, 4096, 4096, false);
    e.apply_completion(4096, 4096, -5, false);
    let s = e.stats();
    assert_eq!(s, Stats { good: 4096, bad: 4096, requests: 2 });
}

#[test]
fn split_reads_stops_at_block_boundaries() {
    let reads = split_reads(&(0..8192), SECTOR, BLOCK, 8192);
    assert_eq!(reads, vec![(0, 4096), (4096, 8192)]);
}

#[test]
fn split_reads_expands_to_sector_boundaries() {
    // an unaligned region grows to sector bounds and is clamped to the
    // device
    let reads = split_reads(&(100..600), SECTOR, BLOCK, 8192);
    assert_eq!(reads, vec![(0, 1024)]);
    let reads2 = split_reads(&(4000..4200), SECTOR, BLOCK, 8192);
    assert_eq!(reads2, vec![(3584, 4096), (4096, 4608)]);
    let reads3 = split_reads(&(8000..8192), SECTOR, BLOCK, 8192);
    assert_eq!(reads3, vec![(7680, 8192)]);
}

#[test]
fn split_reads_of_an_empty_range_is_empty() {
    let reads = split_reads(&(512..512), SECTOR, BLOCK, 8192);
    assert!(reads.is_empty());
}

#[test]
fn read_iter_walks_blocks() {
    let mut it = range_to_reads(&(0..8192), SECTOR, BLOCK, 8192);
    assert_eq!(it.next(), Some(0..4096));
    assert_eq!(it.next(), Some(4096..8192));
    assert_eq!(it.next(), None);
}

#[test]
fn all_zeros_detector() {
    assert!(is_all_zeros(&[]));
    assert!(is_all_zeros(&[0, 0, 0, 0]));
    assert!(!is_all_zeros(&[0, 0, 1, 0]));
}

#[test]
fn stats_new_is_zero() {
    assert_eq!(Stats::new(), Stats { good: 0, bad: 0, requests: 0 });
}
