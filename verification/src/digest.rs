//! Content digests: the SHA-256 of a file's bytes, written as sixty-four
//! uppercase hexadecimal digits.

use vstd::prelude::*;
use vstd::slice::slice_subrange;
use vstd::std_specs::iter::IteratorSpec;

verus! {

/// The most bytes one digest can cover: SHA-256 counts its input in bits, in
/// a 64-bit counter.
pub const MAX_CONTENT_LEN: u64 = 0x1fff_ffff_ffff_ffff;

/// The size of the pieces in which [`calculate_hash`] feeds a content.
pub const CHUNK_LEN: usize = 1024;

/// `ring::digest::Context`, a digest in the making. Nothing inside it is
/// seen; contracts speak of it through [`absorbed`].
#[verifier::external_type_specification]
#[verifier::external_body]
pub struct ExContext(ring::digest::Context);

/// The bytes that a digest context has been fed so far, in order.
pub uninterp spec fn absorbed(context: ring::digest::Context) -> Seq<u8>;

/// The SHA-256 digest of `data`.
pub uninterp spec fn sha256(data: Seq<u8>) -> Seq<u8>;

/// The digit for a value below sixteen.
pub open spec fn hex_digit(value: int) -> char {
    if value < 10 {
        (48 + value) as char
    } else {
        (55 + value) as char
    }
}

/// One of `0`..`9`, `A`..`F`.
pub open spec fn is_hex_digit(c: char) -> bool {
    (48 <= c as int <= 57) || (65 <= c as int <= 70)
}

/// Base 16 with uppercase digits: two digits for each byte, the high half first.
pub open spec fn hex_upper(bytes: Seq<u8>) -> Seq<char> {
    Seq::new(
        2 * bytes.len(),
        |i: int|
            if i % 2 == 0 {
                hex_digit(bytes[i / 2] as int / 16)
            } else {
                hex_digit(bytes[i / 2] as int % 16)
            },
    )
}

/// The digest of a content, as the records of a tree carry it.
pub open spec fn digest_hex(content: Seq<u8>) -> Seq<char> {
    hex_upper(sha256(content))
}

/// The shape of a digest: sixty-four uppercase hexadecimal digits.
pub open spec fn is_digest(text: Seq<char>) -> bool {
    &&& text.len() == 64
    &&& forall|i: int| 0 <= i < text.len() ==> is_hex_digit(#[trigger] text[i])
}

/// `ring::digest::Context::new` for SHA-256: a fresh context has been fed
/// nothing.
#[verifier::external_body]
fn context_new() -> (context: ring::digest::Context)
    ensures
        absorbed(context) == Seq::<u8>::empty(),
{
    ring::digest::Context::new(&ring::digest::SHA256)
}

/// `ring::digest::Context::update`: the context has been fed `data` behind
/// what it had been fed before. The call itself panics only once the count
/// of blocks leaves 64 bits; the bound is the narrower one of `finish`, so
/// that a context that was fed can always be finished.
#[verifier::external_body]
fn context_update(context: &mut ring::digest::Context, data: &[u8])
    requires
        absorbed(*old(context)).len() + data@.len() <= MAX_CONTENT_LEN,
    ensures
        absorbed(*final(context)) == absorbed(*old(context)) + data@,
{
    context.update(data)
}

/// `ring::digest::Context::finish`, and `as_ref` of the `Digest` it gives:
/// the SHA-256 of all that the context was fed, which is 32 bytes long. The
/// call panics once the bit count of all input leaves 64 bits, so the total
/// stays within `MAX_CONTENT_LEN`.
#[verifier::external_body]
fn context_finish(context: ring::digest::Context) -> (digest: Vec<u8>)
    requires
        absorbed(context).len() <= MAX_CONTENT_LEN,
    ensures
        digest@ == sha256(absorbed(context)),
        digest@.len() == 32,
{
    context.finish().as_ref().to_vec()
}

/// `encode` of `data_encoding::HEXUPPER`: base 16 as RFC 4648 has it, with the
/// digits `0123456789ABCDEF`. Inputs longer than the bound may panic.
#[verifier::external_body]
fn encode_hex_upper(bytes: &[u8]) -> (text: String)
    requires
        bytes@.len() <= 0x7f_ffff,
    ensures
        text@ == hex_upper(bytes@),
{
    data_encoding::HEXUPPER.encode(bytes)
}

/// The encoding of 32 bytes has the shape of a digest.
pub proof fn lemma_hex_upper_is_digest(bytes: Seq<u8>)
    requires
        bytes.len() == 32,
    ensures
        is_digest(hex_upper(bytes)),
{
    let text = hex_upper(bytes);
    assert forall|i: int| 0 <= i < text.len() implies is_hex_digit(#[trigger] text[i]) by {
        let byte = bytes[i / 2] as int;
        assert(0 <= byte / 16 < 16 && 0 <= byte % 16 < 16);
    }
}

/// Equal contents have equal digests, however each was cut into chunks.
pub proof fn lemma_digest_deterministic(first: Seq<u8>, second: Seq<u8>)
    requires
        first =~= second,
    ensures
        digest_hex(first) == digest_hex(second),
{
}

/// A running digest over a content that arrives in pieces.
pub struct ContentHasher {
    context: ring::digest::Context,
    length: u64,
}

impl View for ContentHasher {
    type V = Seq<u8>;

    /// The bytes taken so far.
    closed spec fn view(&self) -> Seq<u8> {
        absorbed(self.context)
    }
}

impl ContentHasher {
    #[verifier::type_invariant]
    spec fn well_formed(self) -> bool {
        &&& self.length == absorbed(self.context).len()
        &&& self.length <= MAX_CONTENT_LEN
    }

    /// A hasher that has taken nothing.
    pub fn new() -> (hasher: ContentHasher)
        ensures
            hasher@ == Seq::<u8>::empty(),
    {
        ContentHasher { context: context_new(), length: 0 }
    }

    /// Takes the next piece of the content, unless the content would grow
    /// past `MAX_CONTENT_LEN`: then nothing is taken.
    pub fn update(self, chunk: &[u8]) -> (next: (ContentHasher, bool))
        ensures
            next.1 == (self@.len() + chunk@.len() <= MAX_CONTENT_LEN),
            next.0@ == if next.1 {
                self@ + chunk@
            } else {
                self@
            },
    {
        proof {
            use_type_invariant(&self);
        }
        let ContentHasher { context, length } = self;
        let mut context = context;
        if chunk.len() as u64 > MAX_CONTENT_LEN - length {
            (ContentHasher { context, length }, false)
        } else {
            context_update(&mut context, chunk);
            (ContentHasher { context, length: length + chunk.len() as u64 }, true)
        }
    }

    /// The digest of all that was taken.
    pub fn finish(self) -> (digest: String)
        ensures
            digest@ == digest_hex(self@),
            is_digest(digest@),
    {
        proof {
            use_type_invariant(&self);
        }
        let raw = context_finish(self.context);
        proof {
            lemma_hex_upper_is_digest(raw@);
        }
        encode_hex_upper(raw.as_slice())
    }
}

/// The digest of `content`, fed in pieces of `CHUNK_LEN` bytes; none for a
/// content longer than `MAX_CONTENT_LEN`.
pub fn calculate_hash(content: &[u8]) -> (digest: Option<String>)
    ensures
        digest is Some <==> content@.len() <= MAX_CONTENT_LEN,
        digest matches Some(text) ==> text@ == digest_hex(content@) && is_digest(text@),
{
    if content.len() as u64 > MAX_CONTENT_LEN {
        return None;
    }
    let mut hasher = ContentHasher::new();
    let mut at: usize = 0;
    while at < content.len()
        invariant
            at <= content.len(),
            content@.len() <= MAX_CONTENT_LEN,
            hasher@ == content@.subrange(0, at as int),
        decreases content.len() - at,
    {
        let end = if content.len() - at > CHUNK_LEN {
            at + CHUNK_LEN
        } else {
            content.len()
        };
        let chunk = slice_subrange(content, at, end);
        let (next, taken) = hasher.update(chunk);
        assert(taken);
        assert(content@.subrange(0, at as int) + content@.subrange(at as int, end as int)
            =~= content@.subrange(0, end as int));
        hasher = next;
        at = end;
    }
    assert(content@.subrange(0, at as int) =~= content@);
    Some(hasher.finish())
}

/// Tells whether `text` has the shape of a digest.
pub fn is_digest_text(text: &str) -> (valid: bool)
    ensures
        valid == is_digest(text@),
{
    let mut digits = true;
    let mut seen: usize = 0;
    for c in it: text.chars()
        invariant
            it.seq() == text@,
            seen <= 65,
            seen == if it.index() <= 64 { it.index() as int } else { 65 },
            digits == (forall|i: int| 0 <= i < it.index() ==> is_hex_digit(#[trigger] text@[i])),
    {
        if !(('0' <= c && c <= '9') || ('A' <= c && c <= 'F')) {
            digits = false;
        }
        if seen < 65 {
            seen = seen + 1;
        }
    }
    digits && seen == 64
}

} // verus!
