use vstd::prelude::*;

verus! {

/// Sample format of a decoded audio buffer.
#[derive(Clone, Copy, Debug, PartialEq, Eq, Structural)]
pub enum SampleFormat {
    F32,
    S32,
    S16,
    Other,
}

/// What reading the next packet of the selected audio stream produced.
#[derive(Clone, Copy, Debug, PartialEq, Eq, Structural)]
pub enum PacketEvent {
    /// No further packet could be read (end of stream or a read error).
    NoPacket,
    /// A packet of another track.
    OtherTrack,
    /// A packet decoded into a buffer of the given sample format.
    Decoded(SampleFormat),
    /// The decoder reported malformed data.
    Malformed,
    /// The decoder failed in another way.
    Failed,
}

/// Why decoding an audio file failed.
#[derive(Clone, Copy, Debug, PartialEq, Eq, Structural)]
pub enum AudioError {
    NoAudioTrack,
    UnsupportedFormat,
    DecodeFailed,
}

/// What the decoding loop does next.
#[derive(Clone, Copy, Debug, PartialEq, Eq, Structural)]
pub enum DecodeStep {
    /// Ignore the packet and read the next one.
    Skip,
    /// Mix the buffer's channels down to mono and append it.
    Append(SampleFormat),
    /// Stop and return the samples decoded so far.
    Finish,
    /// Stop with an error.
    Fail(AudioError),
}

/// The decoding loop's reaction to a packet event: packets of other tracks are
/// skipped, float and 32/16-bit integer buffers are appended, other sample
/// formats and non-data decoder failures are errors, and the end of the
/// packets or malformed data ends decoding with what was read.
pub open spec fn step_for(event: PacketEvent) -> DecodeStep {
    match event {
        PacketEvent::NoPacket => DecodeStep::Finish,
        PacketEvent::OtherTrack => DecodeStep::Skip,
        PacketEvent::Decoded(SampleFormat::Other) => DecodeStep::Fail(AudioError::UnsupportedFormat),
        PacketEvent::Decoded(f) => DecodeStep::Append(f),
        PacketEvent::Malformed => DecodeStep::Finish,
        PacketEvent::Failed => DecodeStep::Fail(AudioError::DecodeFailed),
    }
}

/// The decoding loop's reaction to a packet event.
pub fn decode_step(event: PacketEvent) -> (r: DecodeStep)
    ensures
        r == step_for(event),
{
    match event {
        PacketEvent::NoPacket => DecodeStep::Finish,
        PacketEvent::OtherTrack => DecodeStep::Skip,
        PacketEvent::Decoded(SampleFormat::Other) => DecodeStep::Fail(AudioError::UnsupportedFormat),
        PacketEvent::Decoded(f) => DecodeStep::Append(f),
        PacketEvent::Malformed => DecodeStep::Finish,
        PacketEvent::Failed => DecodeStep::Fail(AudioError::DecodeFailed),
    }
}

/// The first track that declares a sample rate, with that rate.
pub open spec fn first_rated(rates: Seq<Option<u32>>) -> Option<(int, u32)>
    decreases rates.len(),
{
    if rates.len() == 0 {
        None
    } else {
        match rates[0] {
            Some(r) => Some((0, r)),
            None => match first_rated(rates.drop_first()) {
                Some((i, r)) => Some((i + 1, r)),
                None => None,
            },
        }
    }
}

/// Chooses the audio track to decode: the first one with a sample rate,
/// given each track's declared sample rate; fails when there is none.
pub fn select_track(rates: &[Option<u32>]) -> (r: Result<(usize, u32), AudioError>)
    ensures
        match first_rated(rates@) {
            Some((i, rate)) => r == Ok::<(usize, u32), AudioError>((i as usize, rate)),
            None => r == Err::<(usize, u32), AudioError>(AudioError::NoAudioTrack),
        },
{
    let mut i: usize = 0;
    while i < rates.len()
        invariant
            i <= rates@.len(),
            forall|k: int| 0 <= k < i ==> (#[trigger] rates@[k]) is None,
        decreases rates@.len() - i,
    {
        if let Some(rate) = rates[i] {
            proof {
                lemma_first_rated_at(rates@, i as int);
            }
            return Ok((i, rate));
        }
        i += 1;
    }
    proof {
        lemma_first_rated_none(rates@);
    }
    Err(AudioError::NoAudioTrack)
}

proof fn lemma_first_rated_at(rates: Seq<Option<u32>>, i: int)
    requires
        0 <= i < rates.len(),
        rates[i] is Some,
        forall|k: int| 0 <= k < i ==> (#[trigger] rates[k]) is None,
    ensures
        first_rated(rates) == Some((i, rates[i]->0)),
    decreases i,
{
    if i > 0 {
        let rest = rates.drop_first();
        assert forall|k: int| 0 <= k < i - 1 implies (#[trigger] rest[k]) is None by {
            assert(rest[k] == rates[k + 1]);
        }
        assert(rates[0] is None);
        lemma_first_rated_at(rest, i - 1);
    }
}

proof fn lemma_first_rated_none(rates: Seq<Option<u32>>)
    requires
        forall|k: int| 0 <= k < rates.len() ==> (#[trigger] rates[k]) is None,
    ensures
        first_rated(rates) is None,
    decreases rates.len(),
{
    if rates.len() > 0 {
        let rest = rates.drop_first();
        assert forall|k: int| 0 <= k < rest.len() implies (#[trigger] rest[k]) is None by {
            assert(rest[k] == rates[k + 1]);
        }
        assert(rates[0] is None);
        lemma_first_rated_none(rest);
    }
}

impl AudioError {
    /// The error's message.
    pub fn message(self) -> (r: &'static str)
        ensures
            r@ == (match self {
                AudioError::NoAudioTrack => "No audio track found"@,
                AudioError::UnsupportedFormat => "Unsupported audio format"@,
                AudioError::DecodeFailed => "Decode error"@,
            }),
    {
        match self {
            AudioError::NoAudioTrack => "No audio track found",
            AudioError::UnsupportedFormat => "Unsupported audio format",
            AudioError::DecodeFailed => "Decode error",
        }
    }
}

} // verus!
