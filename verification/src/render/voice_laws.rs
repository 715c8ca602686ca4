//! What holds of every take, and of everything that is played.
use crate::bytes::{le, le_value, lemma_le_len, lemma_le_roundtrip, lemma_spans, twos};
use crate::render::voice::{
    faded, replied, report_text, show_nanos, voiced, CapturePoll, DeliveryPoll, PhaseView,
    RepliesView, ReplyView, VoiceFrame, VoiceView, FLASH_NANOS, MIN_TAKE_SAMPLES,
    REPLY_LINGER_NANOS, REPLY_MIN_NANOS,
};
use crate::render::wav::{
    data_tag, field, fmt_tag, pcm_bytes, replayed, riff, wav_file, wav_head, wave, SAMPLE_RATE,
};
use crate::voice_delivery::ReportView;
use vstd::prelude::*;

verus! {

/// When the microphone and the player are told what: recording starts on a press when nothing
/// is on; it is told to stop once, on the next press; a take is played when it has come in
/// whole and again on a press in its review; it is saved when it is kept, which goes before
/// discarding it, and that before playing it again.
pub proof fn lemma_orders_follow_the_phase(s: VoiceView, f: VoiceFrame)
    ensures
        ({
            let o = voiced(s, f).1;
            let whole = f.capture matches CapturePoll::Taken(v) && v@.len() >= MIN_TAKE_SAMPLES;
            &&& (o.start <==> s.phase is Idle && f.record)
            &&& (o.stop <==> f.record && (s.phase matches PhaseView::Recording {
                stopping,
                elapsed_nanos,
            } && !stopping))
            &&& (o.save <==> s.phase is Review && f.confirm)
            &&& (o.play <==> (s.phase is Recording && whole) || (s.phase is Review && f.record
                && !f.confirm && !f.discard))
            &&& (o.silence <==> s.phase is Review && (f.confirm || f.discard || f.record))
        }),
{
}

/// Where a frame leads: from nothing to recording on a press; on recording while nothing comes
/// of it, with the time counted; to the review of a take that is long enough, as it came, and
/// back to nothing otherwise; a review lasts until the take is discarded, or was saved.
pub proof fn lemma_phases_follow_each_other(s: VoiceView, f: VoiceFrame)
    ensures
        ({
            let t = voiced(s, f).0.phase;
            &&& (s.phase is Idle && !f.record ==> t is Idle)
            &&& (s.phase is Idle && f.record ==> t == (PhaseView::Recording {
                stopping: false,
                elapsed_nanos: 0,
            }))
            &&& (s.phase matches PhaseView::Recording { stopping, elapsed_nanos } ==> {
                &&& (f.capture is Empty && elapsed_nanos + f.delta_nanos <= u64::MAX ==> t == (
                PhaseView::Recording {
                    stopping: stopping || f.record,
                    elapsed_nanos: (elapsed_nanos + f.delta_nanos) as u64,
                }))
                &&& (f.capture matches CapturePoll::Taken(v) ==> (v@.len() >= MIN_TAKE_SAMPLES
                    ==> t == (PhaseView::Review { samples: v@ })) && (v@.len()
                    < MIN_TAKE_SAMPLES ==> t is Idle))
                &&& (f.capture is Failed || f.capture is Dead ==> t is Idle)
            })
            &&& (s.phase is Review && (f.confirm || !f.discard) ==> t == s.phase)
            &&& (s.phase is Review && !f.confirm && f.discard ==> t is Idle)
        }),
{
}

/// A flash lasts its time and no longer, in however many frames it is let go by.
pub proof fn lemma_flash_fades(f: Option<(Seq<char>, u64)>, x: u64, y: u64)
    requires
        x + y <= u64::MAX,
    ensures
        faded(faded(f, x), y) == faded(f, (x + y) as u64),
        f matches Some((t, left)) ==> (faded(f, x) is Some <==> x < left),
        faded(f, x) matches Some((t, left)) ==> f matches Some((u, was)) && t == u && left + x
            == was,
{
}

/// A delivery is told of if anything went out or went wrong, and not otherwise.
pub proof fn lemma_deliveries_are_told(r: ReportView)
    ensures
        report_text(r) is None <==> r.error is None && r.sent == 0,
{
}

/// A reply is shown for its least time, and for as long as it sounds and a while after.
pub proof fn lemma_replies_are_shown_long_enough(r: ReplyView)
    requires
        r.samples matches Some(s) ==> s.len() <= u64::MAX,
    ensures
        show_nanos(r) >= REPLY_MIN_NANOS,
        r.samples is None ==> show_nanos(r) == REPLY_MIN_NANOS,
        r.samples matches Some(s) ==> {
            let sounds = s.len() as int * 1_000_000_000 / SAMPLE_RATE as int;
            &&& show_nanos(r) >= sounds + REPLY_LINGER_NANOS
            &&& (show_nanos(r) == REPLY_MIN_NANOS || show_nanos(r) == sounds + REPLY_LINGER_NANOS)
        },
{
}

/// The reply that is shown stays until its time is up, which runs by what the frames take;
/// then the next one comes up if any waits, for its own time.
pub proof fn lemma_replies_take_turns(s: RepliesView, fresh: Seq<ReplyView>, nanos: u64)
    ensures
        ({
            let (t, shown) = replied(s, fresh, nanos);
            let over = s.showing is None || s.showing->0 <= nanos;
            &&& (!over ==> shown is None && t.showing is Some && t.showing->0 + nanos
                == s.showing->0)
            &&& (over ==> (shown is Some <==> s.queue.len() + fresh.len() > 0))
            &&& (shown is Some ==> t.showing == Some(show_nanos(shown->0)))
            &&& (over && shown is None ==> t.showing is None)
            &&& (shown is Some && s.queue.len() > 0 ==> shown->0 == s.queue[0])
        }),
{
}

/// A sample is replayed one step nearer to silence, and silence as it is.
pub proof fn lemma_replay_is_one_step_quieter(v: i16)
    ensures
        v > 0 ==> replayed(v as int) == v - 1,
        v < 0 ==> replayed(v as int) == v + 1,
        replayed(0) == 0,
{
}

/// Where everything stands in a take's file: the two tags and the length of the rest; a format
/// of 16 bytes, which says one channel of 16-bit samples at the rate, and how many bytes that
/// is a second and a sample; and the length of the data.
pub proof fn lemma_wav_header(pcm: Seq<i16>)
    requires
        44 + 2 * pcm.len() <= u32::MAX,
    ensures
        ({
            let b = wav_file(pcm);
            &&& b.len() == 44 + 2 * pcm.len()
            &&& b.subrange(0, 4) == riff()
            &&& field(b, 4, 4) + 8 == b.len()
            &&& b.subrange(8, 12) == wave()
            &&& b.subrange(12, 16) == fmt_tag()
            &&& field(b, 16, 4) == 16
            &&& field(b, 20, 2) == 1
            &&& field(b, 22, 2) == 1
            &&& field(b, 24, 4) == SAMPLE_RATE
            &&& field(b, 28, 4) == 2 * SAMPLE_RATE
            &&& field(b, 32, 2) == 2
            &&& field(b, 34, 2) == 16
            &&& b.subrange(36, 40) == data_tag()
            &&& field(b, 40, 4) == 2 * pcm.len()
        }),
{
    let n = 2 * pcm.len();
    let b = wav_file(pcm);
    let h = wav_head(n);
    lemma_pcm_len(pcm);
    lemma_spans();
    lemma_le_roundtrip(36 + n, 4);
    lemma_le_roundtrip(16, 4);
    lemma_le_roundtrip(1, 2);
    lemma_le_roundtrip(SAMPLE_RATE as nat, 4);
    lemma_le_roundtrip(2 * SAMPLE_RATE as nat, 4);
    lemma_le_roundtrip(2, 2);
    lemma_le_roundtrip(16, 2);
    lemma_le_roundtrip(n, 4);
    lemma_le_len(36 + n, 4);
    lemma_le_len(16, 4);
    lemma_le_len(1, 2);
    lemma_le_len(SAMPLE_RATE as nat, 4);
    lemma_le_len(2 * SAMPLE_RATE as nat, 4);
    lemma_le_len(2, 2);
    lemma_le_len(16, 2);
    lemma_le_len(n, 4);
    assert(h.len() == 44);
    assert(b.subrange(0, 4) =~= riff());
    assert(b.subrange(4, 8) =~= le(36 + n, 4));
    assert(b.subrange(8, 12) =~= wave());
    assert(b.subrange(12, 16) =~= fmt_tag());
    assert(b.subrange(16, 20) =~= le(16, 4));
    assert(b.subrange(20, 22) =~= le(1, 2));
    assert(b.subrange(22, 24) =~= le(1, 2));
    assert(b.subrange(24, 28) =~= le(SAMPLE_RATE as nat, 4));
    assert(b.subrange(28, 32) =~= le(2 * SAMPLE_RATE as nat, 4));
    assert(b.subrange(32, 34) =~= le(2, 2));
    assert(b.subrange(34, 36) =~= le(16, 2));
    assert(b.subrange(36, 40) =~= data_tag());
    assert(b.subrange(40, 44) =~= le(n, 4));
}

proof fn lemma_pcm_len(pcm: Seq<i16>)
    ensures
        pcm_bytes(pcm).len() == 2 * pcm.len(),
    decreases pcm.len(),
{
    if pcm.len() > 0 {
        lemma_pcm_len(pcm.drop_last());
        lemma_le_len(twos(pcm.last() as int, 2), 2);
    }
}

/// The samples follow the header in order, two bytes each, in two's complement.
pub proof fn lemma_wav_samples(pcm: Seq<i16>, i: int)
    requires
        0 <= i < pcm.len(),
    ensures
        field(wav_file(pcm), wav_head(2 * pcm.len()).len() + 2 * i, 2) == (if pcm[i] >= 0 {
            pcm[i] as int
        } else {
            pcm[i] + 65_536
        }),
{
    let h = wav_head(2 * pcm.len());
    let b = wav_file(pcm);
    let body = pcm_bytes(pcm);
    lemma_pcm_len(pcm);
    lemma_sample_bytes(pcm, i);
    let at = h.len() + 2 * i;
    assert(b.subrange(at, at + 2) =~= body.subrange(2 * i, 2 * i + 2));
}

proof fn lemma_sample_bytes(pcm: Seq<i16>, i: int)
    requires
        0 <= i < pcm.len(),
    ensures
        pcm_bytes(pcm).len() == 2 * pcm.len(),
        le_value(pcm_bytes(pcm).subrange(2 * i, 2 * i + 2)) == (if pcm[i] >= 0 {
            pcm[i] as int
        } else {
            pcm[i] + 65_536
        }),
    decreases pcm.len(),
{
    let d = pcm.drop_last();
    let last = le(twos(pcm.last() as int, 2), 2);
    let body = pcm_bytes(pcm);
    lemma_pcm_len(pcm);
    lemma_pcm_len(d);
    lemma_le_len(twos(pcm.last() as int, 2), 2);
    if i < d.len() {
        lemma_sample_bytes(d, i);
        assert(body.subrange(2 * i, 2 * i + 2) =~= pcm_bytes(d).subrange(2 * i, 2 * i + 2));
    } else {
        lemma_spans();
        lemma_le_roundtrip(twos(pcm.last() as int, 2), 2);
        assert(body.subrange(2 * i, 2 * i + 2) =~= last);
    }
}

/// The press that closed a review lingers from the discard on, for as long as it is held; a
/// sweep is looked at until it ends, and what it told is shown for the time of a flash, less
/// the frame's.
pub proof fn lemma_what_a_frame_leaves(s: VoiceView, f: VoiceFrame)
    ensures
        ({
            let t = voiced(s, f).0;
            let discarded = s.phase is Review && f.discard && !f.confirm;
            &&& (t.linger <==> discarded || (s.linger && f.closing_held))
            &&& (t.delivery <==> s.delivery && f.delivery is Empty)
            &&& (s.phase is Idle && (!s.delivery || f.delivery is Empty || f.delivery is Dead)
                ==> t.flash == faded(s.flash, f.delta_nanos))
            &&& (s.phase is Idle && s.delivery ==> (f.delivery matches DeliveryPoll::Reported(r)
                ==> (report_text(r@) matches Some(told) ==> t.flash == faded(
                Some((told, FLASH_NANOS)),
                f.delta_nanos,
            ))))
            &&& (discarded || (s.phase is Recording && !(f.capture is Empty) && t.phase is Idle)
                ==> (t.flash matches Some((text, left)) && left == FLASH_NANOS))
        }),
{
}

} // verus!
