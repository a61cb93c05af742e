//! The Fiat-Shamir transcript, which is `merlin`'s.
//!
//! A transcript is opaque to the verifier. What the contracts say of one is its
//! history: the operations made on it since it was created, in order. Merlin
//! derives every challenge from that history and from nothing else, which is
//! what makes a proof reproducible by its verifier.
use crate::field::{le_bytes, FieldElement};
use merlin::Transcript;
use vstd::arithmetic::power::pow;
use vstd::prelude::*;

verus! {

#[verifier::external_type_specification]
#[verifier::external_body]
pub struct ExTranscript(Transcript);

/// One operation in the history of a transcript.
pub enum TranscriptOp {
    /// The transcript was created under this label.
    Init { label: Seq<char> },
    /// A message was absorbed under a label.
    Append { label: Seq<char>, message: Seq<u8> },
    /// That many challenge bytes were squeezed under a label.
    Challenge { label: Seq<char>, len: nat },
}

/// The history of a transcript.
pub uninterp spec fn transcript_log(t: Transcript) -> Seq<TranscriptOp>;

/// The bytes that a transcript with the given history yields when `len` bytes
/// are squeezed from it under `label`.
pub uninterp spec fn challenge_output(
    log: Seq<TranscriptOp>,
    label: Seq<char>,
    len: nat,
) -> Seq<u8>;

/// The context label of the protocol.
pub open spec fn protocol_label() -> Seq<char> {
    "Fast Reed-Solomon Interactive Oracle Proof of Proximity"@
}

/// The eight bytes of a `u64`, least significant first.
pub open spec fn u64_le_bytes(x: u64) -> Seq<u8> {
    Seq::new(8, |i: int| ((x as nat / pow(256, i as nat) as nat) % 256) as u8)
}

/// The history after a message was absorbed.
pub open spec fn log_append(
    log: Seq<TranscriptOp>,
    label: Seq<char>,
    message: Seq<u8>,
) -> Seq<TranscriptOp> {
    log.push(TranscriptOp::Append { label, message })
}

/// The history after 64 challenge bytes were squeezed.
pub open spec fn log_challenge(log: Seq<TranscriptOp>, label: Seq<char>) -> Seq<TranscriptOp> {
    log.push(TranscriptOp::Challenge { label, len: 64 })
}

/// The history after one round of the commit phase: a layer's root was
/// absorbed and the folding challenge was squeezed.
pub open spec fn log_after_round(log: Seq<TranscriptOp>, root: nat) -> Seq<TranscriptOp> {
    log_challenge(log_append(log, "root"@, le_bytes(root, 32)), "alpha"@)
}

/// A transcript for the protocol, under its fixed context label.
pub fn protocol_transcript() -> (t: Transcript)
    ensures
        transcript_log(t) == seq![TranscriptOp::Init { label: protocol_label() }],
{
    transcript_new("Fast Reed-Solomon Interactive Oracle Proof of Proximity")
}

/// Absorbs the canonical encoding of a field element.
pub fn append_field(t: &mut Transcript, label: &'static str, x: &FieldElement)
    ensures
        transcript_log(*final(t)) == log_append(transcript_log(*old(t)), label@, le_bytes(x@, 32)),
{
    let bytes = x.to_repr();
    transcript_append(t, label, bytes.as_slice());
}

/// Absorbs a counter.
pub fn append_u64(t: &mut Transcript, label: &'static str, x: u64)
    ensures
        transcript_log(*final(t)) == log_append(transcript_log(*old(t)), label@, u64_le_bytes(x)),
{
    transcript_append_u64(t, label, x);
}

/// Squeezes 64 challenge bytes.
pub fn challenge_wide(t: &mut Transcript, label: &'static str) -> (out: [u8; 64])
    ensures
        out@ == challenge_output(transcript_log(*old(t)), label@, 64),
        transcript_log(*final(t)) == log_challenge(transcript_log(*old(t)), label@),
{
    transcript_challenge(t, label)
}

/// `Transcript::new` of `merlin`: a transcript whose history is its creation
/// under the label.
#[verifier::external_body]
fn transcript_new(label: &'static str) -> (t: Transcript)
    ensures
        transcript_log(t) == seq![TranscriptOp::Init { label: label@ }],
{
    Transcript::new(label.as_bytes())
}

/// `Transcript::append_message` of `merlin`: the message joins the history
/// under its label. Merlin refuses a message longer than `u32::MAX` bytes.
#[verifier::external_body]
fn transcript_append(t: &mut Transcript, label: &'static str, message: &[u8])
    requires
        message@.len() <= u32::MAX,
    ensures
        transcript_log(*final(t)) == log_append(transcript_log(*old(t)), label@, message@),
{
    t.append_message(label.as_bytes(), message)
}

/// `Transcript::append_u64` of `merlin`, which absorbs the number's eight
/// bytes, least significant first, as a message.
#[verifier::external_body]
fn transcript_append_u64(t: &mut Transcript, label: &'static str, x: u64)
    ensures
        transcript_log(*final(t)) == log_append(transcript_log(*old(t)), label@, u64_le_bytes(x)),
{
    t.append_u64(label.as_bytes(), x)
}

/// `Transcript::challenge_bytes` of `merlin` on a buffer of 64 bytes: the bytes
/// depend on the history and the label alone, and the request joins the
/// history.
#[verifier::external_body]
fn transcript_challenge(t: &mut Transcript, label: &'static str) -> (out: [u8; 64])
    ensures
        out@ == challenge_output(transcript_log(*old(t)), label@, 64),
        transcript_log(*final(t)) == log_challenge(transcript_log(*old(t)), label@),
{
    let mut out = [0u8; 64];
    t.challenge_bytes(label.as_bytes(), &mut out);
    out
}

} // verus!
