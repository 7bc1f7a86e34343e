//! WAV files of sixteen-bit mono sound.
use vstd::prelude::*;

verus! {

/// Two bytes, the lower first.
pub open spec fn le16(n: int) -> Seq<u8> {
    seq![(n % 256) as u8, (n / 256 % 256) as u8]
}

/// Four bytes, the lowest first.
pub open spec fn le32(n: int) -> Seq<u8> {
    le16(n % 65536) + le16(n / 65536)
}

/// The bits of a sample as a number that is not negative.
pub open spec fn sample_bits(sample: i16) -> int {
    if sample >= 0 {
        sample as int
    } else {
        sample + 65536
    }
}

/// The bytes of samples, one after the other.
pub open spec fn sound_bytes(samples: Seq<i16>) -> Seq<u8>
    decreases samples.len(),
{
    if samples.len() == 0 {
        Seq::empty()
    } else {
        sound_bytes(samples.drop_last()) + le16(sample_bits(samples.last()))
    }
}

/// The letters `RIFF`.
pub open spec fn riff() -> Seq<u8> {
    seq![82u8, 73u8, 70u8, 70u8]
}

/// The letters `WAVEfmt `.
pub open spec fn wave_format() -> Seq<u8> {
    seq![87u8, 65u8, 86u8, 69u8, 102u8, 109u8, 116u8, 32u8]
}

/// The letters `data`.
pub open spec fn data() -> Seq<u8> {
    seq![100u8, 97u8, 116u8, 97u8]
}

/// The head of a WAV file for so many bytes of sound: one channel of sixteen-bit
/// samples at a rate.
pub open spec fn wav_head(length: int, sample_rate: u32) -> Seq<u8> {
    riff() + le32(36 + length) + wave_format() + le32(16) + le16(1) + le16(1) + le32(
        sample_rate as int,
    ) + le32(2 * sample_rate) + le16(2) + le16(16) + data() + le32(length)
}

/// How many bytes of sound the head of a WAV file tells of: four bytes hold no
/// greater number.
pub open spec fn told_length(samples: nat) -> int {
    (2 * samples as int) % 0x1_0000_0000
}

/// The WAV file of samples at a rate.
pub open spec fn wav_file(samples: Seq<i16>, sample_rate: u32) -> Seq<u8> {
    wav_head(told_length(samples.len()), sample_rate) + sound_bytes(samples)
}

fn put16(out: &mut Vec<u8>, n: u32)
    requires
        n < 65536,
    ensures
        final(out)@ == old(out)@ + le16(n as int),
{
    let ghost before = out@;
    out.push((n % 256) as u8);
    out.push((n / 256 % 256) as u8);
    assert(out@ =~= before + le16(n as int));
}

fn put32(out: &mut Vec<u8>, n: u32)
    ensures
        final(out)@ == old(out)@ + le32(n as int),
{
    let ghost before = out@;
    put16(out, n % 65536);
    put16(out, n / 65536);
    assert(out@ =~= before + le32(n as int));
}

/// Whether the lengths in the head of the WAV file of so many samples can be reckoned.
pub open spec fn wav_fits(samples: nat, sample_rate: u32) -> bool {
    2 * samples <= usize::MAX && 36 + told_length(samples) <= u32::MAX && 2 * sample_rate <= u32::MAX
}

/// Whether the lengths in the head of the WAV file of so many samples can be reckoned.
pub fn can_be_wav(samples: usize, sample_rate: u32) -> (fits: bool)
    ensures
        fits == wav_fits(samples as nat, sample_rate),
{
    samples <= usize::MAX / 2 && (samples as u64 * 2) % 0x1_0000_0000 <= 0xffff_ffff - 36
        && sample_rate <= u32::MAX / 2
}

/// The WAV file of samples at a rate.
pub fn wav_bytes(samples: &[i16], sample_rate: u32) -> (out: Vec<u8>)
    requires
        wav_fits(samples@.len(), sample_rate),
    ensures
        out@ == wav_file(samples@, sample_rate),
{
    let length: u32 = ((samples.len() as u64 * 2) % 0x1_0000_0000) as u32;
    let mut out: Vec<u8> = Vec::new();
    out.push(82);
    out.push(73);
    out.push(70);
    out.push(70);
    assert(out@ =~= riff());
    put32(&mut out, 36 + length);
    let ghost so_far = out@;
    out.push(87);
    out.push(65);
    out.push(86);
    out.push(69);
    out.push(102);
    out.push(109);
    out.push(116);
    out.push(32);
    assert(out@ =~= so_far + wave_format());
    put32(&mut out, 16);
    put16(&mut out, 1);
    put16(&mut out, 1);
    put32(&mut out, sample_rate);
    put32(&mut out, sample_rate * 2);
    put16(&mut out, 2);
    put16(&mut out, 16);
    let ghost so_far = out@;
    out.push(100);
    out.push(97);
    out.push(116);
    out.push(97);
    assert(out@ =~= so_far + data());
    put32(&mut out, length);
    let ghost head = out@;
    assert(head == wav_head(told_length(samples@.len()), sample_rate));
    let mut i: usize = 0;
    proof {
        assert(out@ =~= head + sound_bytes(samples@.take(0)));
    }
    while i < samples.len()
        invariant
            i <= samples@.len(),
            out@ == head + sound_bytes(samples@.take(i as int)),
        decreases samples@.len() - i,
    {
        let sample = samples[i];
        let bits: u32 = if sample >= 0 {
            sample as u32
        } else {
            (sample as i32 + 65536) as u32
        };
        proof {
            let next = samples@.take(i + 1);
            assert(next.drop_last() =~= samples@.take(i as int));
            assert(next.last() == sample);
        }
        put16(&mut out, bits);
        i += 1;
        assert(out@ =~= head + sound_bytes(samples@.take(i as int)));
    }
    assert(samples@.take(samples@.len() as int) =~= samples@);
    out
}

/// The number that two bytes of a file hold, the lower first.
pub open spec fn number16(file: Seq<u8>, at: int) -> int {
    file[at] + 256 * file[at + 1]
}

/// The number that four bytes of a file hold, the lowest first.
pub open spec fn number32(file: Seq<u8>, at: int) -> int {
    number16(file, at) + 65536 * number16(file, at + 2)
}

/// A sample of a WAV file.
pub open spec fn sample_of(file: Seq<u8>, i: int) -> int {
    let bits = number16(file, 44 + 2 * i);
    if bits < 32768 {
        bits
    } else {
        bits - 65536
    }
}

proof fn lemma_head_length(length: int, sample_rate: u32)
    ensures
        wav_head(length, sample_rate).len() == 44,
{
}

proof fn lemma_sound(samples: Seq<i16>, i: int)
    requires
        0 <= i < samples.len(),
    ensures
        sound_bytes(samples).len() == 2 * samples.len(),
        sound_bytes(samples)[2 * i] + 256 * sound_bytes(samples)[2 * i + 1] == sample_bits(
            samples[i],
        ),
    decreases samples.len(),
{
    let front = samples.drop_last();
    if i < front.len() {
        lemma_sound(front, i);
        assert(front[i] == samples[i]);
    } else {
        if front.len() > 0 {
            lemma_sound(front, 0);
        }
    }
}

/// A WAV file is as long as its head and its samples, and each sample is read
/// back from it.
pub proof fn law_samples_are_read_back(samples: Seq<i16>, sample_rate: u32, i: int)
    requires
        0 <= i < samples.len(),
    ensures
        wav_file(samples, sample_rate).len() == 44 + 2 * samples.len(),
        sample_of(wav_file(samples, sample_rate), i) == samples[i],
{
    let head = wav_head(told_length(samples.len()), sample_rate);
    let sound = sound_bytes(samples);
    lemma_head_length(told_length(samples.len()), sample_rate);
    lemma_sound(samples, i);
    let file = head + sound;
    assert(file[44 + 2 * i] == sound[2 * i]);
    assert(file[44 + 2 * i + 1] == sound[2 * i + 1]);
}

proof fn lemma_le32(n: int)
    requires
        0 <= n < 0x1_0000_0000,
    ensures
        le32(n).len() == 4,
        le32(n)[0] + 256 * le32(n)[1] + 65536 * (le32(n)[2] + 256 * le32(n)[3]) == n,
{
    assert(le32(n)[0] == (n % 65536) % 256);
    assert(le32(n)[1] == (n % 65536) / 256 % 256);
    assert(le32(n)[2] == (n / 65536) % 256);
    assert(le32(n)[3] == (n / 65536) / 256 % 256);
}

/// The head of a WAV file tells what is in it: its letters stand at their places,
/// and so do the length of the file behind the first eight bytes, the rate, and
/// the length of the sound.
pub proof fn law_head_tells_what_follows(samples: Seq<i16>, sample_rate: u32)
    requires
        2 * samples.len() + 36 <= u32::MAX,
        2 * sample_rate <= u32::MAX,
    ensures
        ({
            let file = wav_file(samples, sample_rate);
            &&& file.len() == 44 + 2 * samples.len()
            &&& file.take(4) == riff()
            &&& file.subrange(8, 16) == wave_format()
            &&& file.subrange(36, 40) == data()
            &&& number32(file, 4) == file.len() - 8
            &&& number16(file, 22) == 1
            &&& number32(file, 24) == sample_rate
            &&& number32(file, 28) == 2 * sample_rate
            &&& number16(file, 34) == 16
            &&& number32(file, 40) == 2 * samples.len()
        }),
{
    let length = 2 * samples.len() as int;
    assert(told_length(samples.len()) == length);
    let head = wav_head(length, sample_rate);
    lemma_head_length(length, sample_rate);
    if samples.len() > 0 {
        lemma_sound(samples, 0);
    }
    let file = head + sound_bytes(samples);
    assert(file.len() == 44 + length);
    lemma_le32(36 + length);
    lemma_le32(length);
    lemma_le32(sample_rate as int);
    lemma_le32(2 * sample_rate);
    assert(file.take(4) =~= riff());
    assert(file.subrange(8, 16) =~= wave_format());
    assert(file.subrange(36, 40) =~= data());
    assert(file.subrange(4, 8) =~= le32(36 + length));
    assert(file.subrange(22, 24) =~= le16(1));
    assert(file.subrange(24, 28) =~= le32(sample_rate as int));
    assert(file.subrange(28, 32) =~= le32(2 * sample_rate));
    assert(file.subrange(34, 36) =~= le16(16));
    assert(file.subrange(40, 44) =~= le32(length));
    assert forall|at: int, k: int| 0 <= at <= 40 && 0 <= k < 4 implies #[trigger] file.subrange(
        at,
        at + 4,
    )[k] == file[at + k] by {}
    assert(file[4] == file.subrange(4, 8)[0] && file[5] == file.subrange(4, 8)[1] && file[6]
        == file.subrange(4, 8)[2] && file[7] == file.subrange(4, 8)[3]);
    assert(file[24] == file.subrange(24, 28)[0] && file[25] == file.subrange(24, 28)[1] && file[26]
        == file.subrange(24, 28)[2] && file[27] == file.subrange(24, 28)[3]);
    assert(file[28] == file.subrange(28, 32)[0] && file[29] == file.subrange(28, 32)[1] && file[30]
        == file.subrange(28, 32)[2] && file[31] == file.subrange(28, 32)[3]);
    assert(file[40] == file.subrange(40, 44)[0] && file[41] == file.subrange(40, 44)[1] && file[42]
        == file.subrange(40, 44)[2] && file[43] == file.subrange(40, 44)[3]);
    assert(file[22] == file.subrange(22, 24)[0] && file[23] == file.subrange(22, 24)[1]);
    assert(file[34] == file.subrange(34, 36)[0] && file[35] == file.subrange(34, 36)[1]);
}

/// The head of a WAV file, byte for byte where it does not depend on the sound: it starts
/// with `RIFF`, says `WAVEfmt ` from the ninth byte on and `data` from the thirty-seventh,
/// and tells of sixteen bytes of uncompressed format with two bytes a sample.
pub proof fn law_head_is_that_of_uncompressed_sound(samples: Seq<i16>, sample_rate: u32)
    ensures
        ({
            let file = wav_file(samples, sample_rate);
            &&& file.len() >= 44
            &&& file.subrange(0, 4) == seq!['R' as u8, 'I' as u8, 'F' as u8, 'F' as u8]
            &&& file.subrange(8, 16) == seq![
                'W' as u8,
                'A' as u8,
                'V' as u8,
                'E' as u8,
                'f' as u8,
                'm' as u8,
                't' as u8,
                ' ' as u8,
            ]
            &&& file.subrange(16, 20) == seq![16u8, 0u8, 0u8, 0u8]
            &&& file.subrange(20, 22) == seq![1u8, 0u8]
            &&& file.subrange(22, 24) == seq![1u8, 0u8]
            &&& file.subrange(32, 34) == seq![2u8, 0u8]
            &&& file.subrange(34, 36) == seq![16u8, 0u8]
            &&& file.subrange(36, 40) == seq!['d' as u8, 'a' as u8, 't' as u8, 'a' as u8]
        }),
{
    let head = wav_head(told_length(samples.len()), sample_rate);
    lemma_head_length(told_length(samples.len()), sample_rate);
    let file = wav_file(samples, sample_rate);
    assert(file == head + sound_bytes(samples));
    assert(file.subrange(0, 4) =~= seq![82u8, 73u8, 70u8, 70u8]);
    assert(file.subrange(8, 16) =~= seq![87u8, 65u8, 86u8, 69u8, 102u8, 109u8, 116u8, 32u8]);
    assert(le32(16) =~= seq![16u8, 0u8, 0u8, 0u8]);
    assert(le16(1) =~= seq![1u8, 0u8]);
    assert(le16(2) =~= seq![2u8, 0u8]);
    assert(le16(16) =~= seq![16u8, 0u8]);
    assert(file.subrange(16, 20) =~= le32(16));
    assert(file.subrange(20, 22) =~= le16(1));
    assert(file.subrange(22, 24) =~= le16(1));
    assert(file.subrange(32, 34) =~= le16(2));
    assert(file.subrange(34, 36) =~= le16(16));
    assert(file.subrange(36, 40) =~= seq![100u8, 97u8, 116u8, 97u8]);
}

/// The sound of four minutes at a hundred thousand samples a second, and of any shorter
/// time or lower rate, fits into a WAV file.
pub proof fn law_ordinary_sound_fits(samples: nat, sample_rate: u32)
    requires
        samples <= 24_000_000,
        sample_rate <= 100_000,
    ensures
        wav_fits(samples, sample_rate),
{
}

} // verus!
