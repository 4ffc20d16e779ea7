//! The music sequencer: four channels of notes read from bit tables, each
//! ticked once per display tick; a tick yields the tones to start.
use vstd::prelude::*;
use vstd::arithmetic::power2::{lemma2_to64, lemma_pow2_strictly_increases};
use crate::bitstream::{BitStream, bits_value, bytes_bits, lemma_bits_value_bound};

verus! {

/// A sound channel of the host.
#[derive(Clone, Copy, PartialEq, Eq, Structural, Debug)]
pub enum Channel {
    PulseOne,
    PulseTwo,
    Triangle,
    Noise,
}

/// A tone for the host to play.
#[derive(Clone, Copy, PartialEq, Eq, Structural, Debug)]
pub struct Tone {
    pub start_freq: u16,
    pub end_freq: u16,
    pub attack: u16,
    pub decay: u16,
    pub sustain: u16,
    pub release: u16,
    pub peak: u8,
    pub volume: u8,
    pub channel: Channel,
}

/// A note: ticks to wait before it, its length and its pitch.
#[derive(Clone, Copy, PartialEq, Eq, Structural, Debug)]
pub struct Note {
    pub delta: u32,
    pub length: u16,
    pub pitch: u16,
}

/// The host's number for a channel.
pub open spec fn channel_number(c: Channel) -> u32 {
    match c {
        Channel::PulseOne => 0,
        Channel::PulseTwo => 1,
        Channel::Triangle => 2,
        Channel::Noise => 3,
    }
}

impl Tone {
    /// The four arguments of the host's tone call: the frequencies, the
    /// durations, the volumes and the channel, each packed into 32 bits.
    pub fn packed(&self) -> (r: (u32, u32, u32, u32))
        ensures
            r.0 == (self.end_freq as u32) * 0x10000 + self.start_freq as u32,
            r.1 == (self.sustain as u32) * 0x10000 + self.release as u32,
            r.2 == (self.peak as u32) * 0x100 + self.volume as u32,
            r.3 == channel_number(self.channel),
    {
        let end = self.end_freq as u32;
        let start = self.start_freq as u32;
        let frequency = end << 16 | start;
        assert(end << 16 | start == end * 0x10000 + start) by (bit_vector)
            requires
                end < 0x10000,
                start < 0x10000,
        ;
        let attack = self.attack as u32;
        let decay = self.decay as u32;
        let sustain = self.sustain as u32;
        let release = self.release as u32;
        let mut duration = attack;
        duration = (duration << 16) | decay;
        duration = (duration << 16) | sustain;
        duration = (duration << 16) | release;
        assert(((((((attack << 16) | decay) << 16) | sustain) << 16) | release) == sustain * 0x10000 + release) by (bit_vector)
            requires
                decay < 0x10000,
                sustain < 0x10000,
                release < 0x10000,
        ;
        let peak = self.peak as u32;
        let volume = self.volume as u32;
        assert(peak << 8 | volume == peak * 0x100 + volume) by (bit_vector)
            requires
                peak < 0x100,
                volume < 0x100,
        ;
        let channel = match self.channel {
            Channel::PulseOne => 0,
            Channel::PulseTwo => 1,
            Channel::Triangle => 2,
            Channel::Noise => 3,
        };
        (frequency, duration, peak << 8 | volume, channel)
    }
}

/// The tone that starts `note` on `channel` at `volume`; the noise channel
/// plays a short decaying burst instead.
pub open spec fn tone_for(note: Note, channel: Channel, volume: u8) -> Tone {
    if channel == Channel::Noise {
        Tone {
            start_freq: note.pitch,
            end_freq: 1000,
            attack: 0,
            decay: 1,
            sustain: 0,
            release: note.length,
            peak: 100,
            volume: 5,
            channel,
        }
    } else {
        Tone {
            start_freq: note.pitch,
            end_freq: note.pitch,
            attack: 0,
            decay: 0,
            sustain: note.length,
            release: 0,
            peak: volume,
            volume,
            channel,
        }
    }
}

fn make_tone(note: &Note, channel: Channel, volume: u8) -> (r: Tone)
    ensures
        r == tone_for(*note, channel, volume),
{
    let mut t = Tone {
        start_freq: note.pitch,
        end_freq: note.pitch,
        attack: 0,
        decay: 0,
        sustain: note.length,
        release: 0,
        channel,
        peak: volume,
        volume,
    };
    if let Channel::Noise = t.channel {
        t.release = note.length;
        t.decay = 1;
        t.sustain = 0;
        t.peak = 100;
        t.volume = 5;
        t.end_freq = 1000;
    }
    t
}

/// Reads notes from a bit table: each note is three fields, indices into
/// the tables of waits, lengths and pitches.
pub struct ChannelReader<'a> {
    pub stream: BitStream<'a>,
    pub delta_bits: u8,
    pub deltas: Vec<u32>,
    pub length_bits: u8,
    pub lengths: Vec<u16>,
    pub pitch_bits: u8,
    pub pitches: Vec<u16>,
}

/// The note that the fields at the start of `s` give, if they are there
/// and index the tables.
pub open spec fn note_at(s: Seq<bool>, r: ChannelReader) -> Option<(Note, nat)> {
    let d = r.delta_bits as int;
    let l = r.length_bits as int;
    let p = r.pitch_bits as int;
    let di = bits_value(s.subrange(0, d));
    let li = bits_value(s.subrange(d, d + l));
    let pi = bits_value(s.subrange(d + l, d + l + p));
    if s.len() >= d + l + p && di < r.deltas@.len() && li < r.lengths@.len() && pi < r.pitches@.len() {
        Some((Note { delta: r.deltas@[di as int], length: r.lengths@[li as int], pitch: r.pitches@[pi as int] }, (d + l + p) as nat))
    } else {
        None
    }
}

impl<'a> ChannelReader<'a> {
    pub open spec fn wf(&self) -> bool {
        self.stream.wf() && self.delta_bits <= 32 && self.length_bits <= 32 && self.pitch_bits <= 32
    }

    /// The next note; `None` when the table ends or a field indexes past its table.
    pub fn next(&mut self) -> (r: Option<Note>)
        requires
            old(self).wf(),
        ensures
            final(self).wf(),
            final(self).deltas == old(self).deltas,
            final(self).lengths == old(self).lengths,
            final(self).pitches == old(self).pitches,
            final(self).delta_bits == old(self).delta_bits,
            final(self).length_bits == old(self).length_bits,
            final(self).pitch_bits == old(self).pitch_bits,
            match note_at(old(self).stream@, *old(self)) {
                Some((note, n)) => r == Some(note) && final(self).stream@ == old(self).stream@.skip(n as int),
                None => r is None,
            },
    {
        let ghost s = self.stream@;
        proof {
            lemma2_to64();
        }
        let d = self.delta_bits;
        let l = self.length_bits;
        let p = self.pitch_bits;
        let di = match self.stream.read_bits(d) {
            Some(v) => v,
            None => {
                return None;
            },
        };
        assert(s.take(d as int) =~= s.subrange(0, d as int));
        proof {
            lemma_bits_value_bound(s.subrange(0, d as int));
            if d < 32 {
                lemma_pow2_strictly_increases(d as nat, 32);
            }
        }
        if di as usize >= self.deltas.len() {
            return None;
        }
        let li = match self.stream.read_bits(l) {
            Some(v) => v,
            None => {
                return None;
            },
        };
        assert(s.skip(d as int).take(l as int) =~= s.subrange(d as int, d + l));
        proof {
            lemma_bits_value_bound(s.subrange(d as int, d + l));
            if l < 32 {
                lemma_pow2_strictly_increases(l as nat, 32);
            }
        }
        if li as usize >= self.lengths.len() {
            return None;
        }
        let pi = match self.stream.read_bits(p) {
            Some(v) => v,
            None => {
                return None;
            },
        };
        assert(s.skip(d as int).skip(l as int).take(p as int) =~= s.subrange(d + l, d + l + p));
        assert(s.skip(d as int).skip(l as int).skip(p as int) =~= s.skip(d + l + p));
        proof {
            lemma_bits_value_bound(s.subrange(d + l, d + l + p));
            if p < 32 {
                lemma_pow2_strictly_increases(p as nat, 32);
            }
        }
        if pi as usize >= self.pitches.len() {
            return None;
        }
        Some(Note { delta: self.deltas[di as usize], length: self.lengths[li as usize], pitch: self.pitches[pi as usize] })
    }
}

/// Plays one channel: counts down the wait of the next note and starts it.
pub struct ChannelPlayer<'a> {
    pub reader: ChannelReader<'a>,
    pub channel: Channel,
    pub volume: u8,
    pub note: Option<Note>,
}

impl<'a> ChannelPlayer<'a> {
    pub open spec fn wf(&self) -> bool {
        self.reader.wf()
    }

    /// A player whose next note is the first of `reader`.
    pub fn new(reader: ChannelReader<'a>, channel: Channel, volume: u8) -> (r: ChannelPlayer<'a>)
        requires
            reader.wf(),
        ensures
            r.wf(),
            r.channel == channel,
            r.volume == volume,
            r.note == first_note(reader.stream@, reader),
            read_one_note(reader, r.reader),
    {
        let mut reader = reader;
        let note = reader.next();
        ChannelPlayer { reader, channel, note, volume }
    }

    /// One tick: the wait of the next note goes down by one (not below
    /// zero); when it is zero the note's tone is returned and the note after
    /// it is read. With no note left, nothing happens.
    pub fn tick(&mut self) -> (r: Option<Tone>)
        requires
            old(self).wf(),
        ensures
            final(self).wf(),
            final(self).channel == old(self).channel,
            final(self).volume == old(self).volume,
            r == tick_result(*old(self)),
            ticked(*old(self), *final(self)),
    {
        match self.note {
            None => None,
            Some(note) => {
                let mut note = note;
                if note.delta != 0 {
                    note.delta = note.delta - 1;
                }
                if note.delta == 0 {
                    let t = make_tone(&note, self.channel, self.volume);
                    self.note = self.reader.next();
                    Some(t)
                } else {
                    self.note = Some(note);
                    None
                }
            },
        }
    }
}

/// The note that the fields at the start of `s` give, if any.
pub open spec fn first_note(s: Seq<bool>, r: ChannelReader) -> Option<Note> {
    match note_at(s, r) {
        Some((note, _)) => Some(note),
        None => None,
    }
}

/// `q` is `r` after reading one note: the same tables, and the stream past
/// the note's fields when they were there.
pub open spec fn read_one_note(r: ChannelReader, q: ChannelReader) -> bool {
    &&& q.wf()
    &&& q.delta_bits == r.delta_bits && q.length_bits == r.length_bits && q.pitch_bits == r.pitch_bits
    &&& q.deltas == r.deltas && q.lengths == r.lengths && q.pitches == r.pitches
    &&& match note_at(r.stream@, r) {
        Some((_, n)) => q.stream@ == r.stream@.skip(n as int),
        None => true,
    }
}

/// `q` is `p` after one tick: the wait of the note goes down by one (not
/// below zero); at zero the next note is read; otherwise, and with no
/// note, the reader is left as it was.
pub open spec fn ticked(p: ChannelPlayer, q: ChannelPlayer) -> bool {
    &&& q.channel == p.channel
    &&& q.volume == p.volume
    &&& match p.note {
        None => q.note is None && q.reader == p.reader,
        Some(note) => {
            let delta = if note.delta != 0 { (note.delta - 1) as u32 } else { 0u32 };
            if delta == 0 {
                q.note == first_note(p.reader.stream@, p.reader) && read_one_note(p.reader, q.reader)
            } else {
                q.note == Some(Note { delta, ..note }) && q.reader == p.reader
            }
        },
    }
}

/// The tone that a tick of `p` starts, if any.
pub open spec fn tick_result(p: ChannelPlayer) -> Option<Tone> {
    match p.note {
        None => None,
        Some(note) => {
            let delta = if note.delta != 0 { (note.delta - 1) as u32 } else { 0u32 };
            if delta == 0 {
                Some(tone_for(Note { delta, ..note }, p.channel, p.volume))
            } else {
                None
            }
        },
    }
}

/// No tone, or the one.
pub open spec fn tones_of(t: Option<Tone>) -> Seq<Tone> {
    match t {
        Some(tone) => seq![tone],
        None => seq![],
    }
}

/// The music: four channels.
pub struct Program<'a> {
    pub pulse_one: ChannelPlayer<'a>,
    pub pulse_two: ChannelPlayer<'a>,
    pub triangle: ChannelPlayer<'a>,
    pub noise: ChannelPlayer<'a>,
}

impl<'a> Program<'a> {
    pub open spec fn wf(&self) -> bool {
        self.pulse_one.wf() && self.pulse_two.wf() && self.triangle.wf() && self.noise.wf()
    }

    /// The music of the movie, from the bit tables of its four channels.
    pub fn new(pulse_one: &'a [u8], pulse_two: &'a [u8], triangle: &'a [u8], noise: &'a [u8]) -> (r: Program<'a>)
        ensures
            r.wf(),
            r.pulse_one.channel == Channel::PulseOne && r.pulse_one.volume == 30,
            r.pulse_two.channel == Channel::PulseTwo && r.pulse_two.volume == 30,
            r.triangle.channel == Channel::Triangle && r.triangle.volume == 100,
            r.noise.channel == Channel::Noise && r.noise.volume == 30,
            r.pulse_one.note == first_note(bytes_bits(pulse_one@), r.pulse_one.reader),
            r.pulse_two.note == first_note(bytes_bits(pulse_two@), r.pulse_two.reader),
            r.triangle.note == first_note(bytes_bits(triangle@), r.triangle.reader),
            r.noise.note == first_note(bytes_bits(noise@), r.noise.reader),
            r.pulse_one.reader.delta_bits == 3 && r.pulse_one.reader.length_bits == 2 && r.pulse_one.reader.pitch_bits == 5,
            r.pulse_one.reader.deltas@ == seq![13u32, 14, 26, 27, 890, 1676],
            r.pulse_one.reader.lengths@ == seq![9u16, 22, 35],
            r.pulse_one.reader.pitches@ == seq![277u16, 294, 311, 330, 349, 370, 392, 415, 440, 466, 494, 554, 587, 622, 659, 698, 740, 784],
            r.pulse_two.reader.delta_bits == 3 && r.pulse_two.reader.length_bits == 0 && r.pulse_two.reader.pitch_bits == 0,
            r.pulse_two.reader.deltas@ == seq![0u32, 6, 7, 13, 14, 26, 27, 2541],
            r.pulse_two.reader.lengths@ == seq![2u16],
            r.pulse_two.reader.pitches@ == seq![165u16],
            r.triangle.reader.delta_bits == 4 && r.triangle.reader.length_bits == 3 && r.triangle.reader.pitch_bits == 5,
            r.triangle.reader.deltas@ == seq![6u32, 7, 13, 14, 19, 20, 26, 104, 105, 158, 209, 210, 837],
            r.triangle.reader.lengths@ == seq![3u16, 9, 16, 22, 101, 206],
            r.triangle.reader.pitches@ == seq![31u16, 33, 35, 37, 39, 41, 46, 52, 55, 62, 65, 69, 73, 78, 92, 98, 104],
            r.noise.reader.delta_bits == 4 && r.noise.reader.length_bits == 1 && r.noise.reader.pitch_bits == 0,
            r.noise.reader.deltas@ == seq![12u32, 26, 27, 40, 41, 52, 53, 786, 841, 863],
            r.noise.reader.lengths@ == seq![3u16, 9],
            r.noise.reader.pitches@ == seq![698u16],
    {
        Program {
            pulse_one: ChannelPlayer::new(
                ChannelReader {
                    stream: BitStream::new(pulse_one),
                    delta_bits: 3,
                    deltas: vec![13, 14, 26, 27, 890, 1676],
                    length_bits: 2,
                    lengths: vec![9, 22, 35],
                    pitch_bits: 5,
                    pitches: vec![277, 294, 311, 330, 349, 370, 392, 415, 440, 466, 494, 554, 587, 622, 659, 698, 740, 784],
                },
                Channel::PulseOne,
                30,
            ),
            pulse_two: ChannelPlayer::new(
                ChannelReader {
                    stream: BitStream::new(pulse_two),
                    delta_bits: 3,
                    deltas: vec![0, 6, 7, 13, 14, 26, 27, 2541],
                    length_bits: 0,
                    lengths: vec![2],
                    pitch_bits: 0,
                    pitches: vec![165],
                },
                Channel::PulseTwo,
                30,
            ),
            triangle: ChannelPlayer::new(
                ChannelReader {
                    stream: BitStream::new(triangle),
                    delta_bits: 4,
                    deltas: vec![6, 7, 13, 14, 19, 20, 26, 104, 105, 158, 209, 210, 837],
                    length_bits: 3,
                    lengths: vec![3, 9, 16, 22, 101, 206],
                    pitch_bits: 5,
                    pitches: vec![31, 33, 35, 37, 39, 41, 46, 52, 55, 62, 65, 69, 73, 78, 92, 98, 104],
                },
                Channel::Triangle,
                100,
            ),
            noise: ChannelPlayer::new(
                ChannelReader {
                    stream: BitStream::new(noise),
                    delta_bits: 4,
                    deltas: vec![12, 26, 27, 40, 41, 52, 53, 786, 841, 863],
                    length_bits: 1,
                    lengths: vec![3, 9],
                    pitch_bits: 0,
                    pitches: vec![698],
                },
                Channel::Noise,
                30,
            ),
        }
    }

    /// One tick of every channel, in channel order: the tones to start now.
    pub fn update(&mut self) -> (r: Vec<Tone>)
        requires
            old(self).wf(),
        ensures
            final(self).wf(),
            r@ == tones_of(tick_result(old(self).pulse_one)) + tones_of(tick_result(old(self).pulse_two)) + tones_of(
                tick_result(old(self).triangle),
            ) + tones_of(tick_result(old(self).noise)),
            ticked(old(self).pulse_one, final(self).pulse_one),
            ticked(old(self).pulse_two, final(self).pulse_two),
            ticked(old(self).triangle, final(self).triangle),
            ticked(old(self).noise, final(self).noise),
    {
        let mut tones: Vec<Tone> = Vec::new();
        let a = self.pulse_one.tick();
        if let Some(t) = a {
            tones.push(t);
        }
        assert(tones@ =~= tones_of(a));
        let b = self.pulse_two.tick();
        if let Some(t) = b {
            tones.push(t);
        }
        assert(tones@ =~= tones_of(a) + tones_of(b));
        let c = self.triangle.tick();
        if let Some(t) = c {
            tones.push(t);
        }
        assert(tones@ =~= tones_of(a) + tones_of(b) + tones_of(c));
        let d = self.noise.tick();
        if let Some(t) = d {
            tones.push(t);
        }
        assert(tones@ =~= tones_of(a) + tones_of(b) + tones_of(c) + tones_of(d));
        tones
    }
}

} // verus!
