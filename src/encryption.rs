//! The compute step: an image hidden, with its metadata, in the least
//! significant bits of a cover image, and recovered from them.
use vstd::prelude::*;

verus! {

/// Metadata hidden together with an image.
#[derive(Debug, Clone)]
pub struct ImageMetadata {
    pub usernames: Vec<String>,
    pub quota: u32,
}

/// `username` is among the users the metadata authorises.
pub fn is_authorized(metadata: &ImageMetadata, username: &str) -> (r: bool)
    ensures
        r == exists|i: int|
            0 <= i < metadata.usernames@.len() && (#[trigger] metadata.usernames@[i])@
                == username@,
{
    let name = username.to_owned();
    let mut i: usize = 0;
    while i < metadata.usernames.len()
        invariant
            i <= metadata.usernames@.len(),
            name@ == username@,
            forall|j: int| 0 <= j < i ==> (#[trigger] metadata.usernames@[j])@ != username@,
        decreases metadata.usernames@.len() - i,
    {
        if metadata.usernames[i] == name {
            assert(metadata.usernames@[i as int]@ == username@);
            return true;
        }
        i += 1;
    }
    false
}

/// Uses one view of the quota, when one is left.
pub fn decrement_quota(metadata: &mut ImageMetadata) -> (r: bool)
    ensures
        r == (old(metadata).quota > 0),
        final(metadata).quota == if r {
            (old(metadata).quota - 1) as u32
        } else {
            old(metadata).quota
        },
        final(metadata).usernames == old(metadata).usernames,
{
    if metadata.quota > 0 {
        metadata.quota = metadata.quota - 1;
        true
    } else {
        false
    }
}

/// Bit `k` of `data`, counting from the most significant bit of the first byte.
pub open spec fn bit_at(data: Seq<u8>, k: int) -> u8 {
    (data[k / 8] >> ((7 - k % 8) as u8)) & 1u8
}

/// Byte `p` with its least significant bit replaced by `b`.
pub open spec fn with_lsb(p: u8, b: u8) -> u8 {
    (p & 0xfeu8) | b
}

/// `pixels` with the bits of `data` written, in order, into the least
/// significant bits from position `start` on.
pub open spec fn embedded(pixels: Seq<u8>, start: int, data: Seq<u8>) -> Seq<u8> {
    Seq::new(
        pixels.len(),
        |j: int|
            if start <= j < start + 8 * data.len() {
                with_lsb(pixels[j], bit_at(data, j - start))
            } else {
                pixels[j]
            },
    )
}

/// The byte built from the least significant bits of `pixels[start..start + n]`,
/// the first bit most significant.
pub open spec fn lsb_acc(pixels: Seq<u8>, start: int, n: nat) -> u8
    decreases n,
{
    if n == 0 {
        0
    } else {
        ((lsb_acc(pixels, start, (n - 1) as nat) << 1u8) | (pixels[start + n - 1] & 1u8)) as u8
    }
}

/// The `count` bytes read from the least significant bits from position `start` on.
pub open spec fn extracted(pixels: Seq<u8>, start: int, count: nat) -> Seq<u8> {
    Seq::new(count, |i: int| lsb_acc(pixels, start + 8 * i, 8))
}

/// The big-endian bytes of `v`.
pub open spec fn be_bytes(v: u32) -> Seq<u8> {
    seq![(v >> 24u32) as u8, (v >> 16u32) as u8, (v >> 8u32) as u8, v as u8]
}

/// The number whose big-endian bytes are `b[0..4]`.
pub open spec fn be_value(b: Seq<u8>) -> u32 {
    ((b[0] as u32) << 24u32) | ((b[1] as u32) << 16u32) | ((b[2] as u32) << 8u32) | (b[3] as u32)
}

proof fn lemma_bit_position(i: int, b: int)
    requires
        0 <= i,
        0 <= b < 8,
    ensures
        (8 * i + b) / 8 == i,
        (8 * i + b) % 8 == b,
{
    assert((8 * i + b) / 8 == i && (8 * i + b) % 8 == b) by (nonlinear_arith)
        requires
            0 <= i,
            0 <= b < 8,
    ;
}

proof fn lemma_bits_rebuild(x: u8, e0: u8, e1: u8, e2: u8, e3: u8, e4: u8, e5: u8, e6: u8, e7: u8)
    requires
        e0 & 1u8 == (x >> 7u8) & 1u8,
        e1 & 1u8 == (x >> 6u8) & 1u8,
        e2 & 1u8 == (x >> 5u8) & 1u8,
        e3 & 1u8 == (x >> 4u8) & 1u8,
        e4 & 1u8 == (x >> 3u8) & 1u8,
        e5 & 1u8 == (x >> 2u8) & 1u8,
        e6 & 1u8 == (x >> 1u8) & 1u8,
        e7 & 1u8 == (x >> 0u8) & 1u8,
    ensures
        ((((((((((((((((0u8 << 1u8) | (e0 & 1u8)) << 1u8) | (e1 & 1u8)) << 1u8) | (e2 & 1u8))
            << 1u8) | (e3 & 1u8)) << 1u8) | (e4 & 1u8)) << 1u8) | (e5 & 1u8)) << 1u8) | (e6
            & 1u8)) << 1u8) | (e7 & 1u8)) == x,
{
    assert(((((((((((((((((0u8 << 1u8) | (e0 & 1u8)) << 1u8) | (e1 & 1u8)) << 1u8) | (e2 & 1u8))
        << 1u8) | (e3 & 1u8)) << 1u8) | (e4 & 1u8)) << 1u8) | (e5 & 1u8)) << 1u8) | (e6 & 1u8))
        << 1u8) | (e7 & 1u8)) == x) by (bit_vector)
        requires
            e0 & 1u8 == (x >> 7u8) & 1u8,
            e1 & 1u8 == (x >> 6u8) & 1u8,
            e2 & 1u8 == (x >> 5u8) & 1u8,
            e3 & 1u8 == (x >> 4u8) & 1u8,
            e4 & 1u8 == (x >> 3u8) & 1u8,
            e5 & 1u8 == (x >> 2u8) & 1u8,
            e6 & 1u8 == (x >> 1u8) & 1u8,
            e7 & 1u8 == (x >> 0u8) & 1u8,
    ;
}

proof fn lemma_lsb_of_embedded(p: u8, x: u8, k: u8)
    requires
        k < 8,
    ensures
        with_lsb(p, (x >> k) & 1u8) & 1u8 == (x >> k) & 1u8,
{
    assert(((p & 0xfeu8) | ((x >> k) & 1u8)) & 1u8 == (x >> k) & 1u8) by (bit_vector)
        requires
            k < 8,
    ;
}

/// Reading back the least significant bits written from `start` gives each
/// hidden byte.
proof fn lemma_read_embedded_byte(pixels: Seq<u8>, start: int, data: Seq<u8>, j: int)
    requires
        0 <= start,
        0 <= j < data.len(),
        start + 8 * data.len() <= pixels.len(),
    ensures
        lsb_acc(embedded(pixels, start, data), start + 8 * j, 8) == data[j],
{
    let e = embedded(pixels, start, data);
    let x = data[j];
    assert forall|b: int| 0 <= b < 8 implies #[trigger] e[start + 8 * j + b] & 1u8 == (x >> ((7
        - b) as u8)) & 1u8 by {
        lemma_bit_position(j, b);
        assert(start + 8 * j + b < start + 8 * data.len()) by (nonlinear_arith)
            requires
                j < data.len(),
                b < 8,
        ;
        lemma_lsb_of_embedded(pixels[start + 8 * j + b], x, (7 - b) as u8);
    }
    reveal_with_fuel(lsb_acc, 9);
    let s0 = start + 8 * j;
    assert(e[s0 + 0] & 1u8 == (x >> 7u8) & 1u8);
    assert(e[s0 + 1] & 1u8 == (x >> 6u8) & 1u8);
    assert(e[s0 + 2] & 1u8 == (x >> 5u8) & 1u8);
    assert(e[s0 + 3] & 1u8 == (x >> 4u8) & 1u8);
    assert(e[s0 + 4] & 1u8 == (x >> 3u8) & 1u8);
    assert(e[s0 + 5] & 1u8 == (x >> 2u8) & 1u8);
    assert(e[s0 + 6] & 1u8 == (x >> 1u8) & 1u8);
    assert(e[s0 + 7] & 1u8 == (x >> 0u8) & 1u8);
    lemma_bits_rebuild(x, e[s0], e[s0 + 1], e[s0 + 2], e[s0 + 3], e[s0 + 4], e[s0 + 5], e[s0 + 6], e[s0 + 7]);
}

proof fn lemma_lsb_acc_frame(a: Seq<u8>, b: Seq<u8>, st: int, m: nat)
    requires
        forall|k: int| st <= k < st + m ==> a[k] == b[k],
    ensures
        lsb_acc(a, st, m) == lsb_acc(b, st, m),
    decreases m,
{
    if m > 0 {
        lemma_lsb_acc_frame(a, b, st, (m - 1) as nat);
        assert(a[st + m - 1] == b[st + m - 1]);
    }
}

/// Reading back a region gives what was hidden there, and is not disturbed
/// by hiding more outside it.
proof fn lemma_extract_embedded(q: Seq<u8>, s2: int, d2: Seq<u8>, s: int, n: nat, d: Seq<u8>)
    requires
        0 <= s,
        0 <= s2,
        s + 8 * n <= q.len(),
        s2 + 8 * d2.len() <= q.len(),
        s + 8 * n <= s2 || s2 + 8 * d2.len() <= s || (s == s2 && d == d2 && n == d2.len()),
    ensures
        s == s2 && d == d2 && n == d2.len() ==> extracted(embedded(q, s2, d2), s, n) == d2,
        s + 8 * n <= s2 || s2 + 8 * d2.len() <= s ==> extracted(embedded(q, s2, d2), s, n)
            == extracted(q, s, n),
{
    let e = embedded(q, s2, d2);
    if s == s2 && d == d2 && n == d2.len() && !(s + 8 * n <= s2 || s2 + 8 * d2.len() <= s) {
        assert forall|j: int| 0 <= j < n implies #[trigger] extracted(e, s, n)[j] == d2[j] by {
            lemma_read_embedded_byte(q, s2, d2, j);
        }
        assert(extracted(e, s, n) =~= d2);
    } else {
        assert forall|j: int| 0 <= j < n implies #[trigger] extracted(e, s, n)[j] == extracted(
            q,
            s,
            n,
        )[j] by {
            assert(s + 8 * j + 8 <= s + 8 * n) by (nonlinear_arith)
                requires
                    j < n,
            ;
            lemma_lsb_acc_frame(e, q, s + 8 * j, 8);
        }
        assert(extracted(e, s, n) =~= extracted(q, s, n));
    }
}

proof fn lemma_be_round_trip(v: u32)
    ensures
        be_value(be_bytes(v)) == v,
{
    assert(((((v >> 24u32) as u8) as u32) << 24u32) | ((((v >> 16u32) as u8) as u32) << 16u32)
        | ((((v >> 8u32) as u8) as u32) << 8u32) | ((v as u8) as u32) == v) by (bit_vector);
}

/// Recovering a hidden payload gives it back: whatever the cover, once the
/// metadata and image fit it and have lengths a payload may declare.
pub proof fn lemma_hide_then_reveal(cover: Seq<u8>, metadata: Seq<u8>, image: Seq<u8>)
    requires
        1 <= metadata.len() <= MAX_METADATA_LEN,
        1 <= image.len() <= MAX_IMAGE_LEN,
        payload_bits(metadata.len(), image.len()) <= cover.len(),
    ensures
        revealed(hidden(cover, metadata, image)) == Ok::<(Seq<u8>, Seq<u8>), StegoError>(
            (metadata, image),
        ),
{
    let m = metadata.len() as int;
    let n = image.len();
    let bm = be_bytes(metadata.len() as u32);
    let bn = be_bytes(image.len() as u32);
    let s1 = embedded(cover, 0, bm);
    let s2 = embedded(s1, 32, metadata);
    let s3 = embedded(s2, 32 + 8 * m, bn);
    let h = embedded(s3, 64 + 8 * m, image);
    assert(h == hidden(cover, metadata, image));
    lemma_extract_embedded(s3, 64 + 8 * m, image, 0, 4, bm);
    lemma_extract_embedded(s2, 32 + 8 * m, bn, 0, 4, bm);
    lemma_extract_embedded(s1, 32, metadata, 0, 4, bm);
    lemma_extract_embedded(cover, 0, bm, 0, 4, bm);
    lemma_be_round_trip(metadata.len() as u32);
    assert(be_value(extracted(h, 0, 4)) == m);
    lemma_extract_embedded(s3, 64 + 8 * m, image, 32 + 8 * m, 4, bn);
    lemma_extract_embedded(s2, 32 + 8 * m, bn, 32 + 8 * m, 4, bn);
    lemma_be_round_trip(image.len() as u32);
    assert(be_value(extracted(h, 32 + 8 * m, 4)) == n);
    lemma_extract_embedded(s3, 64 + 8 * m, image, 32, m as nat, metadata);
    lemma_extract_embedded(s2, 32 + 8 * m, bn, 32, m as nat, metadata);
    lemma_extract_embedded(s1, 32, metadata, 32, m as nat, metadata);
    lemma_extract_embedded(s3, 64 + 8 * m, image, 64 + 8 * m, n, image);
}

/// Hides `data` in the least significant bits of `pixels` from `*bit_index`
/// on, and moves `*bit_index` past them.
pub fn embed_bytes(pixels: &mut Vec<u8>, bit_index: &mut usize, data: &[u8])
    requires
        *old(bit_index) + 8 * data@.len() <= old(pixels)@.len(),
    ensures
        final(pixels)@ == embedded(old(pixels)@, *old(bit_index) as int, data@),
        *final(bit_index) == *old(bit_index) + 8 * data@.len(),
{
    let ghost start = *bit_index as int;
    let ghost orig = pixels@;
    let mut i: usize = 0;
    while i < data.len()
        invariant
            i <= data@.len(),
            start + 8 * data@.len() <= orig.len(),
            *bit_index == start + 8 * i,
            pixels@.len() == orig.len(),
            forall|j: int|
                0 <= j < orig.len() ==> #[trigger] pixels@[j] == if start <= j < start + 8 * i {
                    with_lsb(orig[j], bit_at(data@, j - start))
                } else {
                    orig[j]
                },
        decreases data@.len() - i,
    {
        let byte = data[i];
        let mut b: u8 = 0;
        while b < 8
            invariant
                i < data@.len(),
                byte == data@[i as int],
                b <= 8,
                start + 8 * data@.len() <= orig.len(),
                *bit_index == start + 8 * i + b,
                pixels@.len() == orig.len(),
                forall|j: int|
                    0 <= j < orig.len() ==> #[trigger] pixels@[j] == if start <= j < start + 8 * i
                        + b {
                        with_lsb(orig[j], bit_at(data@, j - start))
                    } else {
                        orig[j]
                    },
            decreases 8 - b,
        {
            let shift: u8 = 7 - b;
            let bit_value = (byte >> shift) & 1;
            let at = *bit_index;
            let old_px = pixels[at];
            proof {
                assert(start + 8 * i + b < start + 8 * data@.len()) by (nonlinear_arith)
                    requires
                        i < data@.len(),
                        b < 8,
                ;
                lemma_bit_position(i as int, b as int);
                assert(bit_value == bit_at(data@, at - start));
                assert(old_px == orig[at as int]);
            }
            assert(at < pixels.len());
            pixels.set(at, (old_px & 0xfe) | bit_value);
            *bit_index = at + 1;
            b += 1;
        }
        i += 1;
    }
}

/// Hides the big-endian bytes of `value` as `embed_bytes` does.
pub fn embed_u32(pixels: &mut Vec<u8>, bit_index: &mut usize, value: u32)
    requires
        *old(bit_index) + 32 <= old(pixels)@.len(),
    ensures
        final(pixels)@ == embedded(old(pixels)@, *old(bit_index) as int, be_bytes(value)),
        *final(bit_index) == *old(bit_index) + 32,
{
    let bytes: [u8; 4] = [(value >> 24) as u8, (value >> 16) as u8, (value >> 8) as u8, value as u8];
    assert(bytes@ =~= be_bytes(value));
    embed_bytes(pixels, bit_index, &bytes);
}

/// Reads `output.len()` bytes from the least significant bits of `pixels`
/// from `*bit_index` on, and moves `*bit_index` past them. Fails, changing
/// nothing, when too few bits are left.
pub fn extract_bytes(pixels: &[u8], bit_index: &mut usize, output: &mut Vec<u8>) -> (r: Result<
    (),
    String,
>)
    ensures
        final(output)@.len() == old(output)@.len(),
        r is Ok <==> *old(bit_index) + 8 * old(output)@.len() <= pixels@.len(),
        r is Ok ==> final(output)@ == extracted(
            pixels@,
            *old(bit_index) as int,
            old(output)@.len(),
        ) && *final(bit_index) == *old(bit_index) + 8 * old(output)@.len(),
        r is Err ==> final(output)@ == old(output)@ && *final(bit_index) == *old(bit_index),
{
    let n = output.len();
    if *bit_index > pixels.len() || n > (pixels.len() - *bit_index) / 8 {
        return Err("Unexpected end of pixel data".to_owned());
    }
    let ghost start = *bit_index as int;
    let mut i: usize = 0;
    while i < n
        invariant
            n == output@.len(),
            i <= n,
            start + 8 * n <= pixels@.len(),
            *bit_index == start + 8 * i,
            forall|j: int|
                0 <= j < i ==> #[trigger] output@[j] == lsb_acc(pixels@, start + 8 * j, 8),
        decreases n - i,
    {
        let mut byte: u8 = 0;
        let mut b: usize = 0;
        while b < 8
            invariant
                i < n,
                n == output@.len(),
                start + 8 * n <= pixels@.len(),
                b <= 8,
                *bit_index == start + 8 * i + b,
                byte == lsb_acc(pixels@, start + 8 * i, b as nat),
            decreases 8 - b,
        {
            let bit_value = pixels[*bit_index] & 1;
            byte = (byte << 1) | bit_value;
            *bit_index = *bit_index + 1;
            b += 1;
        }
        output.set(i, byte);
        i += 1;
    }
    assert(output@ =~= extracted(pixels@, start, n as nat));
    Ok(())
}

/// Reads a big-endian `u32` as `extract_bytes` reads four bytes.
pub fn extract_u32(pixels: &[u8], bit_index: &mut usize) -> (r: Result<u32, String>)
    ensures
        r is Ok <==> *old(bit_index) + 32 <= pixels@.len(),
        r matches Ok(v) ==> v == be_value(extracted(pixels@, *old(bit_index) as int, 4))
            && *final(bit_index) == *old(bit_index) + 32,
        r is Err ==> *final(bit_index) == *old(bit_index),
{
    let mut bytes: Vec<u8> = vec![0u8, 0u8, 0u8, 0u8];
    match extract_bytes(pixels, bit_index, &mut bytes) {
        Ok(()) => {
            let v = ((bytes[0] as u32) << 24) | ((bytes[1] as u32) << 16) | ((bytes[2] as u32) << 8)
                | (bytes[3] as u32);
            Ok(v)
        },
        Err(e) => Err(e),
    }
}

/// Largest metadata that a hidden payload may declare.
pub const MAX_METADATA_LEN: u32 = 10000;

/// Largest image that a hidden payload may declare.
pub const MAX_IMAGE_LEN: u32 = 10_000_000;

/// Why hiding or recovering a payload failed.
#[derive(Debug, Clone, Copy, PartialEq, Eq, Structural)]
pub enum StegoError {
    /// The cover has fewer least significant bits than the payload needs.
    CoverTooSmall,
    /// The metadata or the image is longer than a payload may declare.
    PayloadTooLarge,
    /// A carrier of fewer than 64 bytes cannot hold a payload.
    CarrierTooSmall,
    /// The declared metadata length is zero or above the limit.
    InvalidMetadataLength,
    /// The declared image length is zero or above the limit.
    InvalidImageLength,
    /// The bits ran out before the declared lengths were read.
    UnexpectedEnd,
}

/// Bits needed to hide metadata and image with their two length headers.
pub open spec fn payload_bits(metadata_len: nat, image_len: nat) -> nat {
    32 + 8 * metadata_len + 32 + 8 * image_len
}

/// The cover after the payload is hidden in it: the metadata length, the
/// metadata, the image length and the image, from bit 0 on.
pub open spec fn hidden(cover: Seq<u8>, metadata: Seq<u8>, image: Seq<u8>) -> Seq<u8> {
    let m = metadata.len() as int;
    let s1 = embedded(cover, 0, be_bytes(metadata.len() as u32));
    let s2 = embedded(s1, 32, metadata);
    let s3 = embedded(s2, 32 + 8 * m, be_bytes(image.len() as u32));
    embedded(s3, 64 + 8 * m, image)
}

/// Hides `metadata` and `image` in the least significant bits of `cover`.
pub fn hide_payload(cover: Vec<u8>, metadata: &[u8], image: &[u8]) -> (r: Result<Vec<u8>, StegoError>)
    ensures
        match r {
            Ok(p) => p@ == hidden(cover@, metadata@, image@),
            Err(StegoError::PayloadTooLarge) => metadata@.len() > MAX_METADATA_LEN || image@.len()
                > MAX_IMAGE_LEN,
            Err(e) => e == StegoError::CoverTooSmall && metadata@.len() <= MAX_METADATA_LEN
                && image@.len() <= MAX_IMAGE_LEN,
        },
        r is Ok <==> metadata@.len() <= MAX_METADATA_LEN && image@.len() <= MAX_IMAGE_LEN
            && payload_bits(metadata@.len(), image@.len()) <= cover@.len(),
{
    let available = cover.len();
    let m = metadata.len();
    let n = image.len();
    if m > MAX_METADATA_LEN as usize || n > MAX_IMAGE_LEN as usize {
        return Err(StegoError::PayloadTooLarge);
    }
    if 64 + 8 * m + 8 * n > available {
        return Err(StegoError::CoverTooSmall);
    }
    let mut pixels = cover;
    let mut bit_index: usize = 0;
    embed_u32(&mut pixels, &mut bit_index, m as u32);
    embed_bytes(&mut pixels, &mut bit_index, metadata);
    embed_u32(&mut pixels, &mut bit_index, n as u32);
    embed_bytes(&mut pixels, &mut bit_index, image);
    Ok(pixels)
}

/// What recovering a payload from `pixels` gives: the metadata and the image.
pub open spec fn revealed(pixels: Seq<u8>) -> Result<(Seq<u8>, Seq<u8>), StegoError> {
    if pixels.len() < 64 {
        Err(StegoError::CarrierTooSmall)
    } else {
        let m = be_value(extracted(pixels, 0, 4));
        if m == 0 || m > MAX_METADATA_LEN {
            Err(StegoError::InvalidMetadataLength)
        } else if 32 + 8 * m + 32 > pixels.len() {
            Err(StegoError::UnexpectedEnd)
        } else {
            let n = be_value(extracted(pixels, 32 + 8 * m, 4));
            if n == 0 || n > MAX_IMAGE_LEN {
                Err(StegoError::InvalidImageLength)
            } else if 64 + 8 * m + 8 * n > pixels.len() {
                Err(StegoError::UnexpectedEnd)
            } else {
                Ok((extracted(pixels, 32, m as nat), extracted(pixels, 64 + 8 * m, n as nat)))
            }
        }
    }
}

pub open spec fn revealed_of(r: Result<(Vec<u8>, Vec<u8>), StegoError>) -> Result<
    (Seq<u8>, Seq<u8>),
    StegoError,
> {
    match r {
        Ok((a, b)) => Ok((a@, b@)),
        Err(e) => Err(e),
    }
}

/// Recovers the metadata and the image hidden in `pixels`.
pub fn reveal_payload(pixels: &[u8]) -> (r: Result<(Vec<u8>, Vec<u8>), StegoError>)
    ensures
        revealed_of(r) == revealed(pixels@),
{
    if pixels.len() < 64 {
        return Err(StegoError::CarrierTooSmall);
    }
    let mut bit_index: usize = 0;
    let m = match extract_u32(pixels, &mut bit_index) {
        Ok(v) => v,
        Err(_) => {
            return Err(StegoError::UnexpectedEnd);
        },
    };
    if m == 0 || m > MAX_METADATA_LEN {
        return Err(StegoError::InvalidMetadataLength);
    }
    let mut metadata: Vec<u8> = vec![0u8; m as usize];
    match extract_bytes(pixels, &mut bit_index, &mut metadata) {
        Ok(()) => {},
        Err(_) => {
            return Err(StegoError::UnexpectedEnd);
        },
    }
    let n = match extract_u32(pixels, &mut bit_index) {
        Ok(v) => v,
        Err(_) => {
            return Err(StegoError::UnexpectedEnd);
        },
    };
    if n == 0 || n > MAX_IMAGE_LEN {
        return Err(StegoError::InvalidImageLength);
    }
    let mut image: Vec<u8> = vec![0u8; n as usize];
    match extract_bytes(pixels, &mut bit_index, &mut image) {
        Ok(()) => {},
        Err(_) => {
            return Err(StegoError::UnexpectedEnd);
        },
    }
    Ok((metadata, image))
}

/// The width, height and row-major RGB bytes of an encoded image, when
/// the bytes are an image of a format the decoder knows.
pub uninterp spec fn rgb8_decoded(encoded: Seq<u8>) -> Option<(u32, u32, Seq<u8>)>;

/// The PNG file of a `width` by `height` RGB image, when the bytes fill it.
pub uninterp spec fn png_encoded(width: u32, height: u32, pixels: Seq<u8>) -> Option<Seq<u8>>;

#[verifier::external_type_specification]
#[verifier::external_body]
pub struct ExImageError(image::ImageError);

/// Relies on image's `load_from_memory` and `DynamicImage::to_rgb8`: the
/// decoded image as RGB bytes, which depend on the encoded bytes alone; the
/// buffer of an RGB image holds exactly three bytes per pixel.
#[verifier::external_body]
fn decode_rgb8(encoded: &[u8]) -> (r: Result<(u32, u32, Vec<u8>), image::ImageError>)
    ensures
        match r {
            Ok((w, h, px)) => rgb8_decoded(encoded@) == Some((w, h, px@)) && px@.len() == 3
                * (w as int) * (h as int),
            Err(_) => rgb8_decoded(encoded@) is None,
        },
{
    let img = image::load_from_memory(encoded)?.to_rgb8();
    Ok((img.width(), img.height(), img.into_raw()))
}

/// Relies on image's `ImageBuffer::from_raw`, `DynamicImage::write_with_encoder`
/// and `codecs::png::PngEncoder`: the PNG file of an RGB image, which depends
/// on the dimensions and bytes alone; `None` when encoding fails. The PNG
/// encoder asserts that the buffer holds exactly three bytes per pixel, so
/// only such buffers are admitted.
#[verifier::external_body]
fn encode_png(width: u32, height: u32, pixels: Vec<u8>) -> (r: Option<Vec<u8>>)
    requires
        pixels@.len() == 3 * (width as int) * (height as int),
    ensures
        match r {
            Some(b) => png_encoded(width, height, pixels@) == Some(b@),
            None => png_encoded(width, height, pixels@) is None,
        },
{
    let img = image::RgbImage::from_raw(width, height, pixels)?;
    let mut out: Vec<u8> = Vec::new();
    image::DynamicImage::ImageRgb8(img)
        .write_with_encoder(image::codecs::png::PngEncoder::new(&mut out))
        .ok()?;
    Some(out)
}

/// Why the compute step failed.
#[derive(Debug, Clone, Copy, PartialEq, Eq, Structural)]
pub enum EncryptError {
    /// The image to hide is not an image.
    BadImage,
    /// The cover is not an image.
    BadCover,
    /// The carrier of a hidden image is not an image.
    BadCarrier,
    /// The payload does not fit, or could not be recovered.
    Hiding(StegoError),
    /// The result could not be written as PNG.
    EncodeFailed,
}

impl EncryptError {
    /// The message a client is shown.
    pub fn describe(&self) -> (r: &'static str) {
        match self {
            EncryptError::BadImage => "Failed to decode the image to hide",
            EncryptError::BadCover => "Failed to decode encryption key image",
            EncryptError::BadCarrier => "Failed to decode encrypted image",
            EncryptError::Hiding(StegoError::CoverTooSmall) => "Cover image too small",
            EncryptError::Hiding(StegoError::PayloadTooLarge) => "Payload too large to hide",
            EncryptError::Hiding(StegoError::CarrierTooSmall) => "Image too small to contain hidden data",
            EncryptError::Hiding(StegoError::InvalidMetadataLength) => "Invalid metadata length",
            EncryptError::Hiding(StegoError::InvalidImageLength) => "Invalid image length",
            EncryptError::Hiding(StegoError::UnexpectedEnd) => "Unexpected end of pixel data",
            EncryptError::EncodeFailed => "Failed to encode PNG",
        }
    }
}

/// What encrypting `image` with cover `cover` and metadata `metadata` gives.
pub open spec fn encrypted(image: Seq<u8>, cover: Seq<u8>, metadata: Seq<u8>) -> Result<
    Seq<u8>,
    EncryptError,
> {
    if rgb8_decoded(image) is None {
        Err(EncryptError::BadImage)
    } else {
        match rgb8_decoded(cover) {
            None => Err(EncryptError::BadCover),
            Some((w, h, px)) => {
                if metadata.len() > MAX_METADATA_LEN || image.len() > MAX_IMAGE_LEN {
                    Err(EncryptError::Hiding(StegoError::PayloadTooLarge))
                } else if payload_bits(metadata.len(), image.len()) > px.len() {
                    Err(EncryptError::Hiding(StegoError::CoverTooSmall))
                } else {
                    match png_encoded(w, h, hidden(px, metadata, image)) {
                        Some(b) => Ok(b),
                        None => Err(EncryptError::EncodeFailed),
                    }
                }
            },
        }
    }
}

/// Encrypts `image_data`: checks that it is an image, then hides it with
/// `metadata` in the RGB bytes of the cover image `cover`, written as PNG.
pub fn encrypt_image(image_data: &Vec<u8>, cover: &Vec<u8>, metadata: &Vec<u8>) -> (r: Result<
    Vec<u8>,
    EncryptError,
>)
    ensures
        match r {
            Ok(b) => encrypted(image_data@, cover@, metadata@) == Ok::<Seq<u8>, EncryptError>(b@),
            Err(e) => encrypted(image_data@, cover@, metadata@) == Err::<Seq<u8>, EncryptError>(e),
        },
{
    match decode_rgb8(image_data.as_slice()) {
        Ok(_) => {},
        Err(_) => {
            return Err(EncryptError::BadImage);
        },
    }
    let (w, h, px) = match decode_rgb8(cover.as_slice()) {
        Ok(t) => t,
        Err(_) => {
            return Err(EncryptError::BadCover);
        },
    };
    let carrier = match hide_payload(px, metadata.as_slice(), image_data.as_slice()) {
        Ok(p) => p,
        Err(e) => {
            return Err(EncryptError::Hiding(e));
        },
    };
    assert(carrier@.len() == px@.len());
    match encode_png(w, h, carrier) {
        Some(b) => Ok(b),
        None => Err(EncryptError::EncodeFailed),
    }
}

/// What decrypting `carrier` gives: the hidden metadata and image.
pub open spec fn decrypted(carrier: Seq<u8>) -> Result<(Seq<u8>, Seq<u8>), EncryptError> {
    match rgb8_decoded(carrier) {
        None => Err(EncryptError::BadCarrier),
        Some((_, _, px)) => match revealed(px) {
            Ok(t) => Ok(t),
            Err(e) => Err(EncryptError::Hiding(e)),
        },
    }
}

/// Decrypts an encrypted image: the metadata and the image hidden in the
/// RGB bytes of `encrypted_image`.
pub fn decrypt_image(encrypted_image: &Vec<u8>) -> (r: Result<(Vec<u8>, Vec<u8>), EncryptError>)
    ensures
        match r {
            Ok((m, i)) => decrypted(encrypted_image@) == Ok::<(Seq<u8>, Seq<u8>), EncryptError>(
                (m@, i@),
            ),
            Err(e) => decrypted(encrypted_image@) == Err::<(Seq<u8>, Seq<u8>), EncryptError>(e),
        },
{
    let (_, _, px) = match decode_rgb8(encrypted_image.as_slice()) {
        Ok(t) => t,
        Err(_) => {
            return Err(EncryptError::BadCarrier);
        },
    };
    match reveal_payload(px.as_slice()) {
        Ok(t) => Ok(t),
        Err(e) => Err(EncryptError::Hiding(e)),
    }
}

} // verus!
