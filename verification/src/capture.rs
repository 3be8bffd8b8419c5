//! Audio capture control and sample-format selection.

use vstd::prelude::*;

verus! {

/// Where captured audio comes from.
#[derive(Clone, Copy, Debug, PartialEq, Eq, Structural)]
pub enum AudioSource {
    Mic,
    System,
}

#[verifier::external_type_specification]
#[verifier::external_body]
#[verifier::reject_recursive_types(T)]
pub struct ExSender<T>(std::sync::mpsc::Sender<T>);

/// `Sender::send` of the unit stop signal; a closed channel is ignored.
#[verifier::external_body]
fn send_stop(tx: &std::sync::mpsc::Sender<()>) {
    let _ = tx.send(());
}

/// Stops a running capture: the capture thread ends when the signal arrives.
pub struct CaptureControl {
    stop_tx: std::sync::mpsc::Sender<()>,
}

impl CaptureControl {
    /// A control that signals on `stop_tx`.
    pub fn new(stop_tx: std::sync::mpsc::Sender<()>) -> (c: Self)
        ensures
            c.channel() == stop_tx,
    {
        CaptureControl { stop_tx }
    }

    /// The channel the stop signal goes to.
    pub closed spec fn channel(&self) -> std::sync::mpsc::Sender<()> {
        self.stop_tx
    }

    /// Sends the stop signal and gives up the control.
    pub fn stop(self) {
        send_stop(&self.stop_tx);
    }
}

/// How the bytes of a captured buffer encode samples.
#[derive(Clone, Copy, Debug, PartialEq, Eq, Structural)]
pub enum SampleEncoding {
    F32,
    I16,
}

impl SampleEncoding {
    /// The short name of the encoding.
    pub fn label(self) -> (s: &'static str)
        ensures
            self == SampleEncoding::F32 ==> s@ == "f32"@,
            self == SampleEncoding::I16 ==> s@ == "i16"@,
    {
        match self {
            SampleEncoding::F32 => "f32",
            SampleEncoding::I16 => "i16",
        }
    }

    /// The other encoding, tried when the first one decodes nothing.
    pub fn other(self) -> (o: SampleEncoding)
        ensures
            o != self,
    {
        match self {
            SampleEncoding::F32 => SampleEncoding::I16,
            SampleEncoding::I16 => SampleEncoding::F32,
        }
    }
}

/// What a stream's format description says about its samples.
#[derive(Clone, Copy, Debug, PartialEq, Eq, Structural)]
pub struct FormatHint {
    pub bits_per_channel: Option<u32>,
    pub bytes_per_frame: Option<u32>,
    pub is_float: Option<bool>,
}

/// The encoding a format implies: 32-bit float when flagged float or 32
/// bits per channel; 16-bit integer when 16 bits per channel or two bytes
/// per channel per frame; float otherwise.
pub open spec fn spec_choose_encoding(f: FormatHint, channels: usize) -> SampleEncoding {
    if f.is_float == Some(true) || f.bits_per_channel == Some(32u32) {
        SampleEncoding::F32
    } else if f.bits_per_channel == Some(16u32) {
        SampleEncoding::I16
    } else {
        match f.bytes_per_frame {
            Some(bpf) => if bpf == ((channels * 2) as u32) {
                SampleEncoding::I16
            } else {
                SampleEncoding::F32
            },
            None => SampleEncoding::F32,
        }
    }
}

/// Picks the sample encoding for a format with `channels` channels.
pub fn choose_encoding(f: &FormatHint, channels: usize) -> (e: SampleEncoding)
    requires
        channels * 2 <= usize::MAX,
    ensures
        e == spec_choose_encoding(*f, channels),
{
    if f.is_float == Some(true) || f.bits_per_channel == Some(32u32) {
        return SampleEncoding::F32;
    }
    if f.bits_per_channel == Some(16u32) {
        return SampleEncoding::I16;
    }
    match f.bytes_per_frame {
        Some(bpf) => if bpf == ((channels * 2) as u32) {
            SampleEncoding::I16
        } else {
            SampleEncoding::F32
        },
        None => SampleEncoding::F32,
    }
}


/// Samples mixed at a time from the two sources (100 ms at 16 kHz).
pub const MIX_CHUNK: usize = 1600;

/// What the mixer of the microphone and system streams does next.
#[derive(Clone, Copy, Debug, PartialEq, Eq, Structural)]
pub enum MixStep {
    /// Mix this many samples from the front of both buffers.
    Mix(usize),
    /// Both sources have ended and less than a chunk is buffered: stop.
    Finish,
    /// Nothing arrived: sleep a moment before polling again.
    Wait,
    /// Something arrived but not a full chunk: poll again at once.
    Poll,
}

/// The mixer's decision from how many samples each source has buffered,
/// whether each source has ended, and whether anything arrived in the
/// last poll: a full chunk available in both is mixed whole (everything
/// both hold in common), otherwise the mixer stops once both sources have
/// ended and waits when nothing came in.
pub fn mixer_step(mic_len: usize, sys_len: usize, mic_done: bool, sys_done: bool, got: bool) -> (s: MixStep)
    ensures
        ({
            let n = if mic_len <= sys_len { mic_len } else { sys_len };
            s == if n >= MIX_CHUNK {
                MixStep::Mix(n)
            } else if mic_done && sys_done {
                MixStep::Finish
            } else if !got {
                MixStep::Wait
            } else {
                MixStep::Poll
            }
        }),
{
    let n = if mic_len <= sys_len { mic_len } else { sys_len };
    if n >= MIX_CHUNK {
        MixStep::Mix(n)
    } else if mic_done && sys_done {
        MixStep::Finish
    } else if !got {
        MixStep::Wait
    } else {
        MixStep::Poll
    }
}

} // verus!
