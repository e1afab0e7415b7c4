use netiso_srv::chd_cache::{
    read_from_chd_cached, ChdState, HunkRange, ReadPastEnd, ReadStep, CHD_READ_AHEAD_HUNKS,
};
use netiso_srv::server::chd_reply;

const HUNK_SIZE: usize = 4;

fn disc(hunks: usize) -> Vec<u8> {
    (0..hunks * HUNK_SIZE).map(|i| (i % 251) as u8).collect()
}

fn image(hunks: usize) -> ChdState {
    ChdState::open("disc.chd".to_string(), HUNK_SIZE as u32, hunks as u32)
}

fn load(state: &mut ChdState, disc: &[u8], range: HunkRange) {
    let hunks: Vec<Vec<u8>> = (range.start..range.start + range.count)
        .map(|h| disc[h as usize * HUNK_SIZE..(h as usize + 1) * HUNK_SIZE].to_vec())
        .collect();
    state.load_range(range.start, &hunks);
}

/// The bytes that a read gives, and the hunks that it had loaded.
fn read(
    state: &mut ChdState,
    disc: &[u8],
    offset: u64,
    length: usize,
) -> (Vec<u8>, Vec<HunkRange>) {
    let mut out = Vec::new();
    let mut loads = Vec::new();
    loop {
        match read_from_chd_cached(state, offset, length, &mut out).unwrap() {
            ReadStep::Done => return (out, loads),
            ReadStep::Load(range) => {
                load(state, disc, range);
                loads.push(range);
            }
        }
    }
}

#[test]
fn an_opened_image_has_the_size_of_its_hunks() {
    let state = image(5);
    assert_eq!(state.path(), "disc.chd");
    assert_eq!(state.hunk_size(), 4);
    assert_eq!(state.logical_size(), 20);
    let largest = ChdState::open(String::new(), u32::MAX, u32::MAX);
    assert_eq!(largest.logical_size(), 0xffff_fffe_0000_0001);
}

#[test]
fn a_miss_asks_for_the_hunks_ahead() {
    assert_eq!(CHD_READ_AHEAD_HUNKS, 4096);
    let state = image(5000);
    assert_eq!(state.run_from(0), HunkRange { start: 0, count: 4096 });
    assert_eq!(state.run_from(904), HunkRange { start: 904, count: 4096 });
    assert_eq!(state.run_from(905), HunkRange { start: 905, count: 4095 });
    assert_eq!(state.run_from(5000), HunkRange { start: 5000, count: 0 });
}

#[test]
fn a_read_gives_the_bytes_of_the_image() {
    let disc = disc(5000);
    let mut state = image(5000);
    let (bytes, loads) = read(&mut state, &disc, 5, 9);
    assert_eq!(bytes, disc[5..14].to_vec());
    assert_eq!(loads, vec![HunkRange { start: 1, count: 4096 }]);
    // The hunks at hand are used again.
    let (bytes, loads) = read(&mut state, &disc, 4, 4096 * HUNK_SIZE);
    assert_eq!(bytes, disc[4..4 + 4096 * HUNK_SIZE].to_vec());
    assert_eq!(loads, vec![]);
    // One read may need two runs.
    let (bytes, loads) = read(&mut state, &disc, 4096 * 4, 12);
    assert_eq!(bytes, disc[4096 * 4..4096 * 4 + 12].to_vec());
    assert_eq!(loads, vec![HunkRange { start: 4097, count: 903 }]);
    // The hunk in front of those at hand is not among them.
    let (bytes, loads) = read(&mut state, &disc, 0, 1);
    assert_eq!(bytes, vec![0]);
    assert_eq!(loads, vec![HunkRange { start: 0, count: 4096 }]);
}

#[test]
fn an_answered_miss_is_a_hit() {
    let disc = disc(10);
    let mut state = image(10);
    let mut out = Vec::new();
    assert_eq!(
        read_from_chd_cached(&state, 39, 1, &mut out),
        Ok(ReadStep::Load(HunkRange { start: 9, count: 1 }))
    );
    load(&mut state, &disc, HunkRange { start: 9, count: 1 });
    assert_eq!(read_from_chd_cached(&state, 39, 1, &mut out), Ok(ReadStep::Done));
    assert_eq!(out, vec![39]);
}

#[test]
fn a_read_stops_at_the_end_of_the_image() {
    let disc = disc(3);
    let mut state = image(3);
    let (bytes, _) = read(&mut state, &disc, 10, 100);
    assert_eq!(bytes, vec![10, 11]);
    let (bytes, loads) = read(&mut state, &disc, 10, 0);
    assert_eq!(bytes, vec![]);
    assert_eq!(loads, vec![]);
}

#[test]
fn a_read_behind_the_end_is_refused() {
    let mut out = vec![7];
    assert_eq!(
        read_from_chd_cached(&image(3), 12, 1, &mut out),
        Err(ReadPastEnd { offset: 12, logical_size: 12 })
    );
    assert_eq!(out, vec![7]);
    assert_eq!(
        ReadPastEnd { offset: 12, logical_size: 12 }.text(),
        "CHD read past end: offset 12 >= logical size 12"
    );
    assert_eq!(
        read_from_chd_cached(&image(0), 0, 0, &mut out),
        Err(ReadPastEnd { offset: 0, logical_size: 0 })
    );
}

#[test]
fn a_chd_is_answered_with_its_bytes() {
    let disc = disc(3);
    let mut state = image(3);
    let (bytes, _) = read(&mut state, &disc, 9, 6);
    assert_eq!(chd_reply(6, &bytes), vec![9, 10, 11, 0, 0, 0]);
    assert_eq!(chd_reply(2, &bytes), vec![9, 10]);
}

#[test]
fn the_run_at_the_end_of_the_image_is_empty() {
    let disc = disc(3);
    let mut state = image(3);
    load(&mut state, &disc, HunkRange { start: 0, count: 3 });
    state.load_range(3, &vec![]);
    assert_eq!(state.logical_size(), 12);
    let (bytes, loads) = read(&mut state, &disc, 11, 1);
    assert_eq!(bytes, vec![11]);
    assert_eq!(loads, vec![HunkRange { start: 2, count: 1 }]);
}
