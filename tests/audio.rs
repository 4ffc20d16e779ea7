use movie_codec::audio::{Channel, ChannelPlayer, ChannelReader, Note, Program, Tone};
use movie_codec::bitstream::BitStream;
use movie_codec::bitvec::BitVec;

fn reader(bytes: &[u8]) -> ChannelReader<'_> {
    ChannelReader {
        stream: BitStream::new(bytes),
        delta_bits: 2,
        deltas: vec![0, 2, 5],
        length_bits: 1,
        lengths: vec![9, 22],
        pitch_bits: 2,
        pitches: vec![277, 294, 311, 330],
    }
}

#[test]
fn reader_reads_notes() {
    let mut b = BitVec::new();
    b.write_bits(1, 2);
    b.write_bits(1, 1);
    b.write_bits(3, 2);
    b.write_bits(2, 2);
    b.write_bits(0, 1);
    b.write_bits(0, 2);
    let bytes = b.dump();
    let mut r = reader(&bytes);
    assert_eq!(r.next(), Some(Note { delta: 2, length: 22, pitch: 330 }));
    assert_eq!(r.next(), Some(Note { delta: 5, length: 9, pitch: 277 }));
}

#[test]
fn reader_stops_on_bad_index() {
    let mut b = BitVec::new();
    b.write_bits(3, 2);
    b.write_bits(0, 6);
    let bytes = b.dump();
    let mut r = reader(&bytes);
    assert_eq!(r.next(), None);
}

#[test]
fn player_waits_then_plays() {
    let mut b = BitVec::new();
    b.write_bits(1, 2);
    b.write_bits(0, 1);
    b.write_bits(2, 2);
    let bytes = b.dump();
    let mut p = ChannelPlayer::new(reader(&bytes), Channel::Triangle, 100);
    assert_eq!(p.tick(), None);
    let t = p.tick().unwrap();
    assert_eq!(
        t,
        Tone {
            start_freq: 311,
            end_freq: 311,
            attack: 0,
            decay: 0,
            sustain: 9,
            release: 0,
            peak: 100,
            volume: 100,
            channel: Channel::Triangle,
        }
    );
}

#[test]
fn noise_plays_a_burst() {
    let mut b = BitVec::new();
    b.write_bits(0, 2);
    b.write_bits(1, 1);
    b.write_bits(0, 2);
    let bytes = b.dump();
    let mut p = ChannelPlayer::new(reader(&bytes), Channel::Noise, 30);
    let t = p.tick().unwrap();
    assert_eq!((t.start_freq, t.end_freq, t.decay, t.sustain, t.release, t.peak, t.volume), (277, 1000, 1, 0, 22, 100, 5));
}

#[test]
fn tone_packing() {
    let t = Tone {
        start_freq: 440,
        end_freq: 880,
        attack: 7,
        decay: 3,
        sustain: 20,
        release: 4,
        peak: 100,
        volume: 30,
        channel: Channel::PulseTwo,
    };
    assert_eq!(t.packed(), (880 << 16 | 440, 20 << 16 | 4, 100 << 8 | 30, 1));
}

#[test]
fn program_ticks_all_channels() {
    let zeros = vec![0u8; 8];
    let mut program = Program::new(&zeros, &zeros, &zeros, &zeros);
    // the second channel's first wait is 0: its note starts on the first tick
    let tones = program.update();
    assert_eq!(tones.len(), 1);
    assert_eq!(tones[0].channel, Channel::PulseTwo);
    assert_eq!(tones[0].start_freq, 165);
}
