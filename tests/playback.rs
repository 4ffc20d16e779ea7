use movie_codec::frame::Frame;
use movie_codec::movie::{encode_movie, EncodedMovie};
use movie_codec::player::{display_palette, run_value, MovieTables, Player};
use movie_codec::screen::Screen;

struct Packed {
    movie: Vec<u8>,
    runs_tree: Vec<u8>,
    runs_data: Vec<u8>,
    order_tree: Vec<u8>,
    count_tree: Vec<u8>,
}

fn pack(m: &EncodedMovie) -> Packed {
    Packed {
        movie: m.movie.dump(),
        runs_tree: m.runs_tree.dump(),
        runs_data: m.runs_data.dump(),
        order_tree: m.order_tree.dump(),
        count_tree: m.count_tree.dump(),
    }
}

fn tables<'a>(m: &'a EncodedMovie, p: &'a Packed, bpp: u32, rate: u32) -> MovieTables<'a> {
    MovieTables {
        movie: &p.movie,
        runs_tree: &p.runs_tree,
        runs_data: &p.runs_data,
        run_value_bits: m.run_value_bits,
        order_tree: &p.order_tree,
        order_values: &m.order_values,
        count_tree: &p.count_tree,
        count_values: &m.count_values,
        width: m.width,
        height: m.height,
        bpp,
        frame_count: m.records.len() as u32,
        frame_rate: rate,
    }
}

fn random_frame(width: u32, height: u32, colours: u64, seed: &mut u64, density: u64) -> Frame {
    let mut pixels = Vec::new();
    for _ in 0..width * height {
        *seed = seed.wrapping_mul(6364136223846793005).wrapping_add(1442695040888963407);
        let r = *seed >> 33;
        pixels.push(if r % 100 < density { ((r / 100) % colours) as u8 } else { 0 });
    }
    Frame::new(width, height, pixels).unwrap()
}

fn shows(player: &Player, f: &Frame, mask: u8) -> bool {
    let s = player.screen();
    for y in 0..f.height() {
        for x in 0..f.width() {
            if s.get(x, y) & mask != f.get(x, y) {
                return false;
            }
        }
    }
    true
}

fn round_trip(frames: Vec<Frame>, bpp: u32) {
    let m = encode_movie(&frames, bpp);
    let p = pack(&m);
    let mut player = Player::new(tables(&m, &p, bpp, 60));
    let mask = if bpp == 1 { 1 } else { 3 };
    for f in 1..frames.len() {
        assert!(player.decode_frame(), "frame {} decodes", f);
        assert!(shows(&player, &frames[f], mask), "frame {} is shown", f);
    }
}

#[test]
fn pipeline_round_trip_random_pairs() {
    let mut seed = 7u64;
    for _ in 0..40 {
        let prev = random_frame(8, 8, 2, &mut seed, 50);
        let curr = random_frame(8, 8, 2, &mut seed, 50);
        round_trip(vec![Frame::blank(8, 8), prev, curr], 1);
    }
}

#[test]
fn pipeline_round_trip_sparse_changes() {
    let mut seed = 99u64;
    let mut frames = vec![Frame::blank(8, 8)];
    for _ in 0..20 {
        frames.push(random_frame(8, 8, 2, &mut seed, 10));
    }
    round_trip(frames, 1);
}

#[test]
fn pipeline_round_trip_four_colours() {
    let mut seed = 3u64;
    let mut frames = vec![Frame::blank(12, 9)];
    for _ in 0..10 {
        frames.push(random_frame(12, 9, 4, &mut seed, 60));
    }
    round_trip(frames, 2);
}

#[test]
fn update_decodes_at_frame_rate() {
    let frames = vec![
        Frame::blank(4, 4),
        Frame::new(4, 4, vec![1; 16]).unwrap(),
        Frame::blank(4, 4),
    ];
    let m = encode_movie(&frames, 1);
    let p = pack(&m);
    let mut player = Player::new(tables(&m, &p, 1, 30));
    player.update();
    assert_eq!((player.phase(), player.frame()), (30, 0));
    player.update();
    assert_eq!((player.phase(), player.frame()), (0, 1));
    assert!(shows(&player, &frames[1], 1));
    player.update();
    player.update();
    assert_eq!(player.frame(), 2);
    assert!(shows(&player, &frames[2], 1));
    // the end of the movie: playback starts over
    player.update();
    player.update();
    assert_eq!((player.phase(), player.frame()), (0, 0));
}

#[test]
fn screen_blocks_and_smoothing() {
    let mut s = Screen::new(40, 30);
    assert_eq!(s.pixel_size(), 4);
    s.set(3, 2, 1);
    assert_eq!(s.get(3, 2), 1);
    assert_eq!(s.get(2, 2), 0);
    s.xor(3, 2, 3);
    assert_eq!(s.get(3, 2), 2);
    s.undo_smooth_filter();
    assert_eq!(s.get(3, 2), 0);
    let mut t = Screen::new(2, 2);
    assert_eq!(t.pixel_size(), 80);
    t.set(0, 0, 1);
    t.set(1, 1, 1);
    t.apply_smooth_filter();
    // the corners between the two lit blocks get a shade; first bits stay
    assert_eq!(t.get(0, 0) & 1, 1);
    assert_eq!(t.get(1, 0) & 1, 0);
    assert!(t.as_bytes().iter().any(|b| b & 0b1010_1010 != 0));
}

#[test]
fn run_values_from_packed_table() {
    // values 5, 2, 7 in three bits each
    let data = vec![0b11_010_101u8, 0b1];
    assert_eq!(run_value(&data, 0, 3), Some(5));
    assert_eq!(run_value(&data, 3, 3), Some(2));
    assert_eq!(run_value(&data, 6, 3), Some(7));
    assert_eq!(run_value(&data, 9, 3), Some(0));
    assert_eq!(run_value(&data, 14, 3), None);
}

#[test]
fn display_palette_blends() {
    let p = display_palette(&vec![0, 300]);
    assert_eq!(p, vec![0, 300, 200, 100]);
    let q = display_palette(&vec![1, 2, 3, 4]);
    assert_eq!(q, vec![1, 2, 3, 4]);
}

#[test]
fn fast_frame_rate_decodes_several_frames_per_tick() {
    let frames = vec![
        Frame::blank(4, 4),
        Frame::new(4, 4, vec![1; 16]).unwrap(),
        Frame::blank(4, 4),
        Frame::new(4, 4, vec![1; 16]).unwrap(),
    ];
    let m = encode_movie(&frames, 1);
    let p = pack(&m);
    let mut player = Player::new(tables(&m, &p, 1, 150));
    player.update();
    assert_eq!((player.phase(), player.frame()), (30, 2));
    assert!(shows(&player, &frames[2], 1));
    // 30 + 150 passes the end of the three records: playback starts over
    player.update();
    assert_eq!((player.phase(), player.frame()), (0, 0));
}
