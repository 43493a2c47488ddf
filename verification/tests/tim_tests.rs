use ddarecover::map_file::SectorState;
use ddarecover::tagged_range::Region;
use ddarecover::tagged_range::TaggedRange;

fn regions_of(tr: &TaggedRange) -> Vec<Region> {
    tr.runs()
}

#[test]
fn tim_single_put_makes_one_run() {
    let mut tr = TaggedRange::new();
    tr.put(0..100, SectorState::Untried);
    let rs = regions_of(&tr);
    assert_eq!(rs.len(), 1);
    assert_eq!(rs[0], Region { start: 0, length: 100, tag: SectorState::Untried });
}

#[test]
fn tim_pointwise_last_put_wins() {
    let mut tr = TaggedRange::new();
    tr.put(0..100, SectorState::Untried);
    tr.put(20..40, SectorState::Rescued);
    tr.put(30..50, SectorState::Bad);
    // the most recent put covering each byte decides its tag
    let rs = regions_of(&tr);
    assert_eq!(
        rs,
        vec![
            Region { start: 0, length: 20, tag: SectorState::Untried },
            Region { start: 20, length: 10, tag: SectorState::Rescued },
            Region { start: 30, length: 20, tag: SectorState::Bad },
            Region { start: 50, length: 50, tag: SectorState::Untried },
        ]
    );
}

#[test]
fn tim_put_splits_a_straddled_run() {
    let mut tr = TaggedRange::new();
    tr.put(0..100, SectorState::Untried);
    tr.put(40..60, SectorState::Rescued);
    let rs = regions_of(&tr);
    assert_eq!(
        rs,
        vec![
            Region { start: 0, length: 40, tag: SectorState::Untried },
            Region { start: 40, length: 20, tag: SectorState::Rescued },
            Region { start: 60, length: 40, tag: SectorState::Untried },
        ]
    );
}

#[test]
fn tim_empty_put_changes_nothing() {
    let mut tr = TaggedRange::new();
    tr.put(0..100, SectorState::Untried);
    tr.put(50..50, SectorState::Bad);
    let rs = regions_of(&tr);
    assert_eq!(rs.len(), 1);
    assert_eq!(rs[0].length, 100);
}

#[test]
fn tim_coalesces_adjacent_equal_tags() {
    let mut tr = TaggedRange::new();
    tr.put(0..100, SectorState::Untried);
    tr.put(0..50, SectorState::Rescued);
    tr.put(50..100, SectorState::Rescued);
    let rs = regions_of(&tr);
    assert_eq!(rs, vec![Region { start: 0, length: 100, tag: SectorState::Rescued }]);
    // and in general no two adjacent touching runs share a tag
    let mut tr2 = TaggedRange::new();
    tr2.put(0..10, SectorState::Bad);
    tr2.put(10..20, SectorState::Bad);
    tr2.put(20..30, SectorState::Rescued);
    tr2.put(30..40, SectorState::Bad);
    let rs2 = regions_of(&tr2);
    for w in rs2.windows(2) {
        if w[0].start + w[0].length == w[1].start {
            assert_ne!(w[0].tag, w[1].tag);
        }
    }
    assert_eq!(rs2.len(), 3);
}

#[test]
fn tim_iter_range_clips_to_the_query() {
    let mut tr = TaggedRange::new();
    tr.put(0..100, SectorState::Untried);
    tr.put(40..60, SectorState::Bad);
    let mut it = tr.iter_range(45..80);
    let mut got: Vec<Region> = Vec::new();
    while let Some(r) = it.next() {
        got.push(r);
    }
    // every returned run lies inside [45, 80) and together they cover it
    assert_eq!(
        got,
        vec![
            Region { start: 45, length: 15, tag: SectorState::Bad },
            Region { start: 60, length: 20, tag: SectorState::Untried },
        ]
    );
    let mut covered = 45;
    for r in &got {
        assert!(r.start >= 45);
        assert!(r.start + r.length <= 80);
        assert_eq!(r.start, covered);
        covered = r.start + r.length;
    }
    assert_eq!(covered, 80);
}

#[test]
fn tim_iter_walks_all_runs() {
    let mut tr = TaggedRange::new();
    tr.put(0..10, SectorState::Rescued);
    tr.put(10..20, SectorState::Bad);
    let mut it = tr.iter();
    assert_eq!(it.next(), Some(Region { start: 0, length: 10, tag: SectorState::Rescued }));
    assert_eq!(it.next(), Some(Region { start: 10, length: 10, tag: SectorState::Bad }));
    assert_eq!(it.next(), None);
    assert_eq!(it.next(), None);
}

#[test]
fn region_as_range() {
    let r = Region::new(30, 12, SectorState::Unscraped);
    let range = r.as_range();
    assert_eq!(range.start, 30);
    assert_eq!(range.end, 42);
}
