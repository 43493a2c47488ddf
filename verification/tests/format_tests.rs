use ddarecover::map_file::MapFile;
use ddarecover::map_file::SectorState;
use ddarecover::phase::Phase;
use ddarecover::tagged_range::Region;

fn map_regions_of(m: &MapFile) -> Vec<Region> {
    let mut it = m.iter();
    let mut rs: Vec<Region> = Vec::new();
    while let Some(r) = it.next() {
        rs.push(r);
    }
    rs
}

#[test]
fn new_map_covers_everything_untried() {
    let m = MapFile::new(4096);
    assert_eq!(m.get_pos(), 0);
    assert_eq!(m.get_phase(), Phase::Copying);
    assert_eq!(m.get_pass(), 1);
    assert_eq!(m.get_size_bytes(), 4096);
    assert_eq!(m.get_size(), 4096);
    let rs = map_regions_of(&m);
    assert_eq!(rs, vec![Region { start: 0, length: 4096, tag: SectorState::Untried }]);
    let h = m.get_histogram();
    assert_eq!(h.get(SectorState::Untried), 4096);
    assert_eq!(h.get(SectorState::Rescued), 0);
}

#[test]
fn render_exact_bytes_of_a_fresh_map() {
    let m = MapFile::new(4096);
    let out = m.to_bytes();
    let expected = b"0x00000000     ?     1\n0x00000000  0x00001000  ?\n";
    assert_eq!(out.as_slice(), &expected[..]);
}

#[test]
fn render_uses_upper_case_hex_past_eight_digits() {
    let mut m = MapFile::new(0x1_2345_ABCD);
    m.set_pos(0xDEAD_BEEF);
    let out = m.to_bytes();
    let expected = b"0xDEADBEEF     ?     1\n0x00000000  0x12345ABCD  ?\n";
    assert_eq!(out.as_slice(), &expected[..]);
}

#[test]
fn round_trip_preserves_everything() {
    let mut m = MapFile::new(1 << 20);
    m.put(0..4096, SectorState::Rescued);
    m.put(4096..8192, SectorState::Bad);
    m.put(8192..12288, SectorState::Unscraped);
    m.set_pos(12288);
    m.set_phase(&Phase::Scraping);
    m.set_pass(3);
    let bytes = m.to_bytes();
    let m2 = MapFile::from_bytes(bytes.as_slice()).expect("a rendered map must load");
    assert_eq!(m2.get_pos(), m.get_pos());
    assert_eq!(m2.get_phase(), m.get_phase());
    assert_eq!(m2.get_pass(), m.get_pass());
    assert_eq!(m2.get_size_bytes(), m.get_size_bytes());
    assert_eq!(map_regions_of(&m2), map_regions_of(&m));
}

#[test]
fn load_accepts_comments_and_legacy_status() {
    let text = b"# a note\n0x00000400     *\n# another\n0x00000000  0x00000800  +\n";
    let m = MapFile::from_bytes(&text[..]).expect("legacy form must load");
    assert_eq!(m.get_pos(), 0x400);
    assert_eq!(m.get_phase(), Phase::Trimming);
    // the old status form carries no pass counter and reads as pass one
    assert_eq!(m.get_pass(), 1);
    assert_eq!(m.get_size_bytes(), 0x800);
    assert_eq!(map_regions_of(&m), vec![Region { start: 0, length: 0x800, tag: SectorState::Rescued }]);
}

#[test]
fn load_takes_size_from_the_largest_end() {
    let text = b"0x00000000     ?     1\n0x00001000  0x00001000  -\n0x00000000  0x00001000  +\n";
    let m = MapFile::from_bytes(&text[..]).expect("must load");
    assert_eq!(m.get_size_bytes(), 0x2000);
    assert_eq!(
        map_regions_of(&m),
        vec![
            Region { start: 0, length: 0x1000, tag: SectorState::Rescued },
            Region { start: 0x1000, length: 0x1000, tag: SectorState::Bad },
        ]
    );
}

#[test]
fn load_rejects_unknown_sector_state() {
    let text = b"0x00000000     ?     1\n0x00000000  0x00001000  x\n";
    let err = MapFile::from_bytes(&text[..]).expect_err("state x must be refused");
    assert_eq!(err.target().as_str(), "sector state");
}

#[test]
fn load_rejects_unknown_phase() {
    let text = b"0x00000000     Z     1\n";
    let err = MapFile::from_bytes(&text[..]).expect_err("phase Z must be refused");
    assert_eq!(err.target().as_str(), "phase");
}

#[test]
fn unscheduled_phases_do_not_survive_a_round_trip() {
    // `Filling` renders as `F`, which no map file can record, so reading
    // the rendered text back is refused rather than misread
    let mut m = MapFile::new(512);
    m.set_phase(&Phase::Filling);
    let bytes = m.to_bytes();
    let err = MapFile::from_bytes(bytes.as_slice()).expect_err("F is not readable");
    assert_eq!(err.target().as_str(), "phase");
}

#[test]
fn load_rejects_malformed_hex() {
    let err = MapFile::from_bytes(&b"0y00  ?  1\n"[..]).expect_err("bad prefix");
    assert_eq!(err.target().as_str(), "hex value");
    let err2 = MapFile::from_bytes(&b"0x  ?  1\n"[..]).expect_err("no digits");
    assert_eq!(err2.target().as_str(), "hex value");
    let err3 = MapFile::from_bytes(&b"0x10000000000000000  ?  1\n"[..]).expect_err("too wide");
    assert_eq!(err3.target().as_str(), "hex value");
}

#[test]
fn load_rejects_empty_input() {
    let err = MapFile::from_bytes(&b""[..]).expect_err("nothing to read");
    assert_eq!(err.target().as_str(), "status line");
    let err2 = MapFile::from_bytes(&b"# only a comment\n"[..]).expect_err("no status");
    assert_eq!(err2.target().as_str(), "status line");
}

#[test]
fn load_rejects_bad_pass() {
    let err = MapFile::from_bytes(&b"0x00000000     ?     x\n"[..]).expect_err("pass not digits");
    assert_eq!(err.target().as_str(), "pass");
}

#[test]
fn load_rejects_region_past_the_address_space() {
    let text = b"0x00000000     ?     1\n0xFFFFFFFFFFFFFFFF  0x00000002  ?\n";
    let err = MapFile::from_bytes(&text[..]).expect_err("end overflows");
    assert_eq!(err.target().as_str(), "region end");
}

#[test]
fn map_put_and_histogram_stay_consistent() {
    let mut m = MapFile::new(8192);
    m.put(0..4096, SectorState::Rescued);
    m.put(4096..6144, SectorState::Bad);
    let h = m.get_histogram();
    assert_eq!(h.get(SectorState::Rescued), 4096);
    assert_eq!(h.get(SectorState::Bad), 2048);
    assert_eq!(h.get(SectorState::Untried), 2048);
    assert_eq!(h.get(SectorState::Untrimmed), 0);
    assert_eq!(h.get(SectorState::Unscraped), 0);
}

#[test]
fn map_pass_counters() {
    let mut m = MapFile::new(512);
    m.set_pass(7);
    assert_eq!(m.get_pass(), 7);
    m.next_pass();
    assert_eq!(m.get_pass(), 8);
}

#[test]
fn sector_state_characters() {
    assert_eq!(SectorState::Untried.as_char(), '?');
    assert_eq!(SectorState::Untrimmed.as_char(), '*');
    assert_eq!(SectorState::Unscraped.as_char(), '/');
    assert_eq!(SectorState::Bad.as_char(), '-');
    assert_eq!(SectorState::Rescued.as_char(), '+');
    assert_eq!(SectorState::from_char('+').unwrap(), SectorState::Rescued);
    assert_eq!(SectorState::from_char('/').unwrap(), SectorState::Unscraped);
    let err = SectorState::from_char('x').expect_err("x is no state");
    assert_eq!(err.target().as_str(), "sector state");
}

#[test]
fn phase_characters_and_schedule() {
    assert_eq!(Phase::Copying.as_char(), '?');
    assert_eq!(Phase::Finished.as_char(), '+');
    assert_eq!(Phase::from_char('*').unwrap(), Phase::Trimming);
    assert!(Phase::from_char('F').is_err());
    let err = Phase::from_char('q').expect_err("q is no phase");
    assert_eq!(err.target().as_str(), "phase");
    assert_eq!(Phase::Copying.next(), Some(Phase::Trimming));
    assert_eq!(Phase::Trimming.next(), Some(Phase::Scraping));
    assert_eq!(Phase::Scraping.next(), Some(Phase::Retrying));
    assert_eq!(Phase::Retrying.next(), Some(Phase::Finished));
    assert_eq!(Phase::Finished.next(), None);
    assert_eq!(Phase::Copying.target_sectors(), Some(SectorState::Untried));
    assert_eq!(Phase::Trimming.target_sectors(), Some(SectorState::Untrimmed));
    assert_eq!(Phase::Scraping.target_sectors(), Some(SectorState::Unscraped));
    assert_eq!(Phase::Retrying.target_sectors(), Some(SectorState::Bad));
    assert_eq!(Phase::Finished.target_sectors(), None);
    assert_eq!(
        Phase::values(),
        vec![Phase::Copying, Phase::Trimming, Phase::Scraping, Phase::Retrying, Phase::Finished]
    );
    assert_eq!(Phase::Copying.name().as_str(), "Copying");
    assert_eq!(Phase::Retrying.name().as_str(), "Retrying");
}
