//! The compiled radar blob: an `MRDR` header and checksummed sections, of
//! which the metadata, automaton and anchor sections are required.

use vstd::prelude::*;

use crate::chars::{extend_str, from_chars, int_text, push_int};
use crate::hash::{sha256_of, sha256_raw};
use crate::Error;

verus! {

broadcast use vstd::string::group_string_axioms;

/// The big-endian 16-bit number at `at`.
pub open spec fn read_be16(b: Seq<u8>, at: int) -> int {
    b[at] * 256 + b[at + 1]
}

/// The big-endian 32-bit number at `at`.
pub open spec fn read_be32(b: Seq<u8>, at: int) -> int {
    ((b[at] * 256 + b[at + 1]) * 256 + b[at + 2]) * 256 + b[at + 3]
}

/// The payloads of the metadata, automaton and anchor sections seen so far.
pub type KnownSections = (Option<Seq<u8>>, Option<Seq<u8>>, Option<Seq<u8>>);

pub open spec fn known_get(k: KnownSections, kind: int) -> Option<Seq<u8>> {
    if kind == 1 {
        k.0
    } else if kind == 2 {
        k.1
    } else {
        k.2
    }
}

pub open spec fn known_set(k: KnownSections, kind: int, p: Seq<u8>) -> KnownSections {
    if kind == 1 {
        (Some(p), k.1, k.2)
    } else if kind == 2 {
        (k.0, Some(p), k.2)
    } else {
        (k.0, k.1, Some(p))
    }
}

/// Reads the section at `off`: a 40-byte header (kind, flags, length,
/// SHA-256 of the payload) and the payload. Unknown sections are skipped
/// unless flagged required; a known kind may appear once.
pub open spec fn section_step(blob: Seq<u8>, off: int, k: KnownSections) -> Result<(int, KnownSections), Seq<char>> {
    let n = blob.len() as int;
    if off + 40 > n {
        Err("雷达区段头越界"@)
    } else {
        let kind = read_be16(blob, off);
        let flags = read_be16(blob, off + 2);
        let length = read_be32(blob, off + 4);
        let start = off + 40;
        if length > n - start {
            Err("雷达区段长度越界"@)
        } else {
            let payload = blob.subrange(start, start + length);
            let next = start + length;
            if sha256_of(payload) != blob.subrange(off + 8, off + 40) {
                Err("雷达区段校验失败"@)
            } else if kind < 1 || kind > 3 {
                if flags % 2 == 1 {
                    Err("存在未知必需雷达区段 "@ + int_text(kind))
                } else {
                    Ok((next, k))
                }
            } else if known_get(k, kind) is Some {
                Err("雷达区段 "@ + int_text(kind) + " 重复"@)
            } else {
                Ok((next, known_set(k, kind, payload)))
            }
        }
    }
}

/// The offset and known sections after `count` sections.
pub open spec fn sections_after(blob: Seq<u8>, count: nat) -> Result<(int, KnownSections), Seq<char>>
    decreases count,
{
    if count == 0 {
        Ok((12, (None, None, None)))
    } else {
        match sections_after(blob, (count - 1) as nat) {
            Err(m) => Err(m),
            Ok((off, k)) => section_step(blob, off, k),
        }
    }
}

/// The required section payloads of a radar blob, or the complaint.
pub open spec fn radar_frame(blob: Seq<u8>) -> Result<(Seq<u8>, Seq<u8>, Seq<u8>), Seq<char>> {
    let n = blob.len() as int;
    let header = "雷达缓存头非法或版本不兼容"@;
    if n < 12 || n > 33554432 {
        Err("雷达缓存长度非法"@)
    } else if blob.take(4) != seq![77u8, 82u8, 68u8, 82u8] {
        Err(header)
    } else if read_be16(blob, 4) != 1 || read_be16(blob, 6) > 16 || read_be32(blob, 8) != n - 12 {
        Err(header)
    } else {
        match sections_after(blob, read_be16(blob, 6) as nat) {
            Err(m) => Err(m),
            Ok((off, k)) => if off != n || k.0 is None || k.1 is None || k.2 is None {
                Err("雷达缓存缺少必需区段"@)
            } else {
                Ok((k.0.unwrap(), k.1.unwrap(), k.2.unwrap()))
            },
        }
    }
}

/// The metadata, automaton and anchor payloads of a blob.
pub struct RadarSections {
    pub meta: Vec<u8>,
    pub machine: Vec<u8>,
    pub anchors: Vec<u8>,
}

/// The bytes of an optional payload.
pub open spec fn opt_bytes(o: Option<Vec<u8>>) -> Option<Seq<u8>> {
    match o {
        Some(v) => Some(v@),
        None => None,
    }
}

/// A cache error with the text `m`.
fn cache_error(m: &Vec<char>) -> (e: Error)
    ensures
        e matches Error::CacheUnavailable(x) && x@ == m@,
{
    Error::CacheUnavailable(from_chars(m))
}

fn be16_at(b: &[u8], at: usize) -> (r: u16)
    requires
        at + 2 <= b.len(),
    ensures
        r == read_be16(b@, at as int),
{
    (b[at] as u16) * 256 + (b[at + 1] as u16)
}

fn be32_at(b: &[u8], at: usize) -> (r: u32)
    requires
        at + 4 <= b.len(),
    ensures
        r == read_be32(b@, at as int),
{
    (((b[at] as u32) * 256 + (b[at + 1] as u32)) * 256 + (b[at + 2] as u32)) * 256 + (b[at + 3] as u32)
}

/// Whether the digest of `payload` is the 32 bytes at `at` of `b`.
fn digest_matches(b: &[u8], at: usize, payload: &[u8]) -> (r: bool)
    requires
        at + 32 <= b.len(),
    ensures
        r == (sha256_of(payload@) == b@.subrange(at as int, at + 32)),
{
    let d = sha256_raw(payload);
    let mut i: usize = 0;
    while i < 32
        invariant
            i <= 32,
            at + 32 <= b.len(),
            d@ == sha256_of(payload@),
            forall|k: int| 0 <= k < i ==> d@[k] == b@[at + k],
        decreases 32 - i,
    {
        if d[i] != b[at + i] {
            assert(b@.subrange(at as int, at + 32)[i as int] != d@[i as int]);
            return false;
        }
        i = i + 1;
    }
    assert(d@ =~= b@.subrange(at as int, at + 32));
    true
}

fn copy_bytes(b: &[u8], from: usize, to: usize) -> (r: Vec<u8>)
    requires
        from <= to <= b.len(),
    ensures
        r@ == b@.subrange(from as int, to as int),
{
    let mut v: Vec<u8> = Vec::new();
    let mut i = from;
    while i < to
        invariant
            from <= i <= to <= b.len(),
            v@ == b@.subrange(from as int, i as int),
        decreases to - i,
    {
        v.push(b[i]);
        assert(v@ =~= b@.subrange(from as int, i + 1));
        i = i + 1;
    }
    v
}

/// An earlier failure stays the result.
proof fn lemma_sections_err(blob: Seq<u8>, i: nat, count: nat)
    requires
        i <= count,
        sections_after(blob, i) is Err,
    ensures
        sections_after(blob, count) == sections_after(blob, i),
    decreases count - i,
{
    if i < count {
        lemma_sections_err(blob, i, (count - 1) as nat);
    }
}

/// Checks the framing of a radar blob and returns its required section
/// payloads: the length, the `MRDR` magic, version 1, at most 16 sections
/// and the body length; each section's bounds and SHA-256; unknown
/// required sections, repeated or missing known ones, and trailing bytes
/// are refused.
pub fn radar_sections(blob: &[u8]) -> (r: Result<RadarSections, Error>)
    ensures
        match radar_frame(blob@) {
            Ok((m, a, c)) => r matches Ok(s) && s.meta@ == m && s.machine@ == a && s.anchors@ == c,
            Err(msg) => r matches Err(Error::CacheUnavailable(x)) && x@ == msg,
        },
{
    let n = blob.len();
    let header = "雷达缓存头非法或版本不兼容";
    if n < 12 || n > 33554432 {
        let mut m: Vec<char> = Vec::new();
        extend_str(&mut m, "雷达缓存长度非法");
        return Err(cache_error(&m));
    }
    if !(blob[0] == 77u8 && blob[1] == 82u8 && blob[2] == 68u8 && blob[3] == 82u8) {
        proof {
            if blob@.take(4) == seq![77u8, 82u8, 68u8, 82u8] {
                assert(blob@.take(4)[0] == blob@[0]);
                assert(blob@.take(4)[1] == blob@[1]);
                assert(blob@.take(4)[2] == blob@[2]);
                assert(blob@.take(4)[3] == blob@[3]);
            }
        }
        let mut m: Vec<char> = Vec::new();
        extend_str(&mut m, header);
        return Err(cache_error(&m));
    }
    assert(blob@.take(4) =~= seq![77u8, 82u8, 68u8, 82u8]);
    let version = be16_at(blob, 4);
    let count = be16_at(blob, 6);
    let body_len = be32_at(blob, 8);
    if version != 1 || count > 16 || body_len as usize != n - 12 {
        let mut m: Vec<char> = Vec::new();
        extend_str(&mut m, header);
        return Err(cache_error(&m));
    }
    let mut offset: usize = 12;
    let mut meta: Option<Vec<u8>> = None;
    let mut machine: Option<Vec<u8>> = None;
    let mut anchors: Option<Vec<u8>> = None;
    let mut i: u16 = 0;
    while i < count
        invariant
            i <= count,
            n == blob@.len(),
            12 <= n <= 33554432,
            blob@.take(4) == seq![77u8, 82u8, 68u8, 82u8],
            read_be16(blob@, 4) == 1,
            count == read_be16(blob@, 6),
            count <= 16,
            read_be32(blob@, 8) == n - 12,
            sections_after(blob@, i as nat) matches Ok((off, k)) && off == offset && k == (opt_bytes(meta), opt_bytes(machine), opt_bytes(anchors)),
            offset <= n,
        decreases count - i,
    {
        let ghost kn = (opt_bytes(meta), opt_bytes(machine), opt_bytes(anchors));
        assert(sections_after(blob@, (i + 1) as nat) == section_step(blob@, offset as int, kn));
        if offset + 40 > n {
            proof {
                lemma_sections_err(blob@, (i + 1) as nat, count as nat);
            }
            let mut m: Vec<char> = Vec::new();
            extend_str(&mut m, "雷达区段头越界");
            return Err(cache_error(&m));
        }
        let kind = be16_at(blob, offset);
        let flags = be16_at(blob, offset + 2);
        let length = be32_at(blob, offset + 4) as usize;
        let start = offset + 40;
        if length > n - start {
            proof {
                lemma_sections_err(blob@, (i + 1) as nat, count as nat);
            }
            let mut m: Vec<char> = Vec::new();
            extend_str(&mut m, "雷达区段长度越界");
            return Err(cache_error(&m));
        }
        let payload = copy_bytes(blob, start, start + length);
        if !digest_matches(blob, offset + 8, &payload) {
            proof {
                lemma_sections_err(blob@, (i + 1) as nat, count as nat);
            }
            let mut m: Vec<char> = Vec::new();
            extend_str(&mut m, "雷达区段校验失败");
            return Err(cache_error(&m));
        }
        if kind < 1 || kind > 3 {
            if flags % 2 == 1 {
                proof {
                    lemma_sections_err(blob@, (i + 1) as nat, count as nat);
                }
                let mut m: Vec<char> = Vec::new();
                extend_str(&mut m, "存在未知必需雷达区段 ");
                push_int(&mut m, kind as i64);
                return Err(cache_error(&m));
            }
        } else {
            let seen = if kind == 1 {
                meta.is_some()
            } else if kind == 2 {
                machine.is_some()
            } else {
                anchors.is_some()
            };
            if seen {
                proof {
                    lemma_sections_err(blob@, (i + 1) as nat, count as nat);
                }
                let mut m: Vec<char> = Vec::new();
                extend_str(&mut m, "雷达区段 ");
                push_int(&mut m, kind as i64);
                extend_str(&mut m, " 重复");
                return Err(cache_error(&m));
            }
            if kind == 1 {
                meta = Some(payload);
            } else if kind == 2 {
                machine = Some(payload);
            } else {
                anchors = Some(payload);
            }
        }
        offset = start + length;
        i = i + 1;
    }
    match (meta, machine, anchors) {
        (Some(m1), Some(m2), Some(m3)) => {
            if offset != n {
                let mut m: Vec<char> = Vec::new();
                extend_str(&mut m, "雷达缓存缺少必需区段");
                return Err(cache_error(&m));
            }
            Ok(RadarSections { meta: m1, machine: m2, anchors: m3 })
        },
        _ => {
            let mut m: Vec<char> = Vec::new();
            extend_str(&mut m, "雷达缓存缺少必需区段");
            Err(cache_error(&m))
        },
    }
}

} // verus!
verus! {

/// A number below 2^16 as two big-endian bytes.
pub open spec fn be16_bytes(v: int) -> Seq<u8> {
    seq![(v / 256) as u8, (v % 256) as u8]
}

/// A number below 2^32 as four big-endian bytes.
pub open spec fn be32_bytes(v: int) -> Seq<u8> {
    seq![(v / 16777216) as u8, ((v / 65536) % 256) as u8, ((v / 256) % 256) as u8, (v % 256) as u8]
}

/// A required section: kind, flags 1, length, the payload's SHA-256, the
/// payload.
pub open spec fn section_bytes(kind: int, p: Seq<u8>) -> Seq<u8> {
    be16_bytes(kind) + be16_bytes(1) + be32_bytes(p.len() as int) + sha256_of(p) + p
}

/// The body of a radar blob: the metadata, automaton and anchor sections.
pub open spec fn radar_body(meta: Seq<u8>, machine: Seq<u8>, anchors: Seq<u8>) -> Seq<u8> {
    section_bytes(1, meta) + section_bytes(2, machine) + section_bytes(3, anchors)
}

/// A radar blob: `MRDR`, version 1, three sections, the body length, the
/// body.
pub open spec fn radar_blob_seq(meta: Seq<u8>, machine: Seq<u8>, anchors: Seq<u8>) -> Seq<u8> {
    let body = radar_body(meta, machine, anchors);
    seq![77u8, 82u8, 68u8, 82u8] + be16_bytes(1) + be16_bytes(3) + be32_bytes(body.len() as int) + body
}

fn push_be16(out: &mut Vec<u8>, v: u16)
    ensures
        final(out)@ == old(out)@ + be16_bytes(v as int),
{
    out.push((v / 256) as u8);
    out.push((v % 256) as u8);
    assert(final(out)@ =~= old(out)@ + be16_bytes(v as int));
}

fn push_be32(out: &mut Vec<u8>, v: u32)
    ensures
        final(out)@ == old(out)@ + be32_bytes(v as int),
{
    out.push((v / 16777216) as u8);
    out.push(((v / 65536) % 256) as u8);
    out.push(((v / 256) % 256) as u8);
    out.push((v % 256) as u8);
    assert(final(out)@ =~= old(out)@ + be32_bytes(v as int));
}

fn push_bytes(out: &mut Vec<u8>, b: &[u8])
    ensures
        final(out)@ == old(out)@ + b@,
{
    let mut i: usize = 0;
    while i < b.len()
        invariant
            i <= b.len(),
            out@ == old(out)@ + b@.take(i as int),
        decreases b.len() - i,
    {
        out.push(b[i]);
        assert(b@.take(i + 1) =~= b@.take(i as int).push(b@[i as int]));
        assert(out@ =~= old(out)@ + b@.take(i + 1));
        i = i + 1;
    }
    assert(b@.take(b.len() as int) =~= b@);
}

fn push_section(out: &mut Vec<u8>, kind: u16, payload: &[u8])
    requires
        payload.len() <= u32::MAX,
    ensures
        final(out)@ == old(out)@ + section_bytes(kind as int, payload@),
        sha256_of(payload@).len() == 32,
{
    let digest = sha256_raw(payload);
    push_be16(out, kind);
    push_be16(out, 1);
    push_be32(out, payload.len() as u32);
    push_bytes(out, &digest);
    push_bytes(out, payload);
    assert(final(out)@ =~= old(out)@ + section_bytes(kind as int, payload@));
}

/// Reading a section back gives its payload.
proof fn lemma_section_at(blob: Seq<u8>, off: int, kind: int, p: Seq<u8>, k: KnownSections)
    requires
        0 <= off,
        off + 40 + p.len() <= blob.len(),
        blob.subrange(off, off + 40 + p.len()) == section_bytes(kind, p),
        sha256_of(p).len() == 32,
        1 <= kind <= 3,
        p.len() <= u32::MAX,
        known_get(k, kind) is None,
    ensures
        section_step(blob, off, k) == Ok::<(int, KnownSections), Seq<char>>((off + 40 + p.len(), known_set(k, kind, p))),
{
    let s = section_bytes(kind, p);
    assert(blob[off] == s[0] && blob[off + 1] == s[1] && blob[off + 2] == s[2] && blob[off + 3] == s[3]);
    assert(blob[off + 4] == s[4] && blob[off + 5] == s[5] && blob[off + 6] == s[6] && blob[off + 7] == s[7]);
    let len = p.len() as int;
    assert(read_be16(blob, off) == kind);
    assert(read_be16(blob, off + 2) == 1);
    assert(read_be32(blob, off + 4) == len) by {
        assert(s[4] == (len / 16777216) as u8);
        assert(s[5] == ((len / 65536) % 256) as u8);
        assert(s[6] == ((len / 256) % 256) as u8);
        assert(s[7] == (len % 256) as u8);
        assert(((len / 16777216) * 256 + (len / 65536) % 256) * 256 + (len / 256) % 256 == len / 256) by (nonlinear_arith)
            requires
                0 <= len <= u32::MAX,
        ;
    }
    assert(blob.subrange(off + 8, off + 40) =~= sha256_of(p)) by {
        assert forall|i: int| 0 <= i < 32 implies blob.subrange(off + 8, off + 40)[i] == sha256_of(p)[i] by {
            assert(blob[off + 8 + i] == s[8 + i]);
        }
    }
    assert(blob.subrange(off + 40, off + 40 + len) =~= p) by {
        assert forall|i: int| 0 <= i < len implies blob.subrange(off + 40, off + 40 + len)[i] == p[i] by {
            assert(blob[off + 40 + i] == s[40 + i]);
        }
    }
}

/// The header of a framed blob, and where its sections lie.
proof fn lemma_blob_layout(meta: Seq<u8>, machine: Seq<u8>, anchors: Seq<u8>)
    requires
        radar_body(meta, machine, anchors).len() <= u32::MAX,
    ensures
        ({
            let blob = radar_blob_seq(meta, machine, anchors);
            let s1 = section_bytes(1, meta);
            let s2 = section_bytes(2, machine);
            let s3 = section_bytes(3, anchors);
            &&& blob.take(4) == seq![77u8, 82u8, 68u8, 82u8]
            &&& read_be16(blob, 4) == 1
            &&& read_be16(blob, 6) == 3
            &&& read_be32(blob, 8) == blob.len() - 12
            &&& blob.len() == 12 + s1.len() + s2.len() + s3.len()
            &&& blob.subrange(12, 12 + s1.len() as int) == s1
            &&& blob.subrange(12 + s1.len() as int, 12 + s1.len() + s2.len() as int) == s2
            &&& blob.subrange(12 + s1.len() + s2.len() as int, blob.len() as int) == s3
        }),
{
    let blob = radar_blob_seq(meta, machine, anchors);
    let body = radar_body(meta, machine, anchors);
    let s1 = section_bytes(1, meta);
    let s2 = section_bytes(2, machine);
    let s3 = section_bytes(3, anchors);
    let head = seq![77u8, 82u8, 68u8, 82u8] + be16_bytes(1) + be16_bytes(3) + be32_bytes(body.len() as int);
    assert(head.len() == 12);
    assert(blob == head + body);
    assert(blob.take(4) =~= seq![77u8, 82u8, 68u8, 82u8]);
    let bl = body.len() as int;
    assert(blob[8] == (bl / 16777216) as u8);
    assert(blob[9] == ((bl / 65536) % 256) as u8);
    assert(blob[10] == ((bl / 256) % 256) as u8);
    assert(blob[11] == (bl % 256) as u8);
    assert(((bl / 16777216) * 256 + (bl / 65536) % 256) * 256 + (bl / 256) % 256 == bl / 256) by (nonlinear_arith)
        requires
            0 <= bl <= u32::MAX,
    ;
    assert(blob.subrange(12, 12 + s1.len() as int) =~= s1);
    assert(blob.subrange(12 + s1.len() as int, 12 + s1.len() + s2.len() as int) =~= s2);
    assert(blob.subrange(12 + s1.len() + s2.len() as int, blob.len() as int) =~= s3);
}

/// Three sections in a row read back as the known payloads.
#[verifier::rlimit(40)]
proof fn lemma_three_sections(blob: Seq<u8>, meta: Seq<u8>, machine: Seq<u8>, anchors: Seq<u8>)
    requires
        sha256_of(meta).len() == 32,
        sha256_of(machine).len() == 32,
        sha256_of(anchors).len() == 32,
        meta.len() <= u32::MAX,
        machine.len() <= u32::MAX,
        anchors.len() <= u32::MAX,
        blob.len() == 12 + section_bytes(1, meta).len() + section_bytes(2, machine).len() + section_bytes(3, anchors).len(),
        blob.subrange(12, 12 + section_bytes(1, meta).len() as int) == section_bytes(1, meta),
        blob.subrange(12 + section_bytes(1, meta).len() as int, 12 + section_bytes(1, meta).len() + section_bytes(2, machine).len() as int)
            == section_bytes(2, machine),
        blob.subrange(12 + section_bytes(1, meta).len() + section_bytes(2, machine).len() as int, blob.len() as int)
            == section_bytes(3, anchors),
    ensures
        sections_after(blob, 3) == Ok::<(int, KnownSections), Seq<char>>(
            (blob.len() as int, (Some(meta), Some(machine), Some(anchors))),
        ),
{
    assert(section_bytes(1, meta).len() == 40 + meta.len());
    assert(section_bytes(2, machine).len() == 40 + machine.len());
    assert(section_bytes(3, anchors).len() == 40 + anchors.len());
    let o2 = 52 + meta.len() as int;
    let o3 = o2 + 40 + machine.len() as int;
    let k0: KnownSections = (None, None, None);
    let k1: KnownSections = (Some(meta), None, None);
    let k2: KnownSections = (Some(meta), Some(machine), None);
    let k3: KnownSections = (Some(meta), Some(machine), Some(anchors));
    lemma_section_at(blob, 12, 1, meta, k0);
    lemma_section_at(blob, o2, 2, machine, k1);
    lemma_section_at(blob, o3, 3, anchors, k2);
    assert(known_set(k0, 1, meta) == k1);
    assert(known_set(k1, 2, machine) == k2);
    assert(known_set(k2, 3, anchors) == k3);
    assert(sections_after(blob, 0) == Ok::<(int, KnownSections), Seq<char>>((12, k0)));
    assert(sections_after(blob, 1) == Ok::<(int, KnownSections), Seq<char>>((o2, k1)));
    assert(sections_after(blob, 2) == Ok::<(int, KnownSections), Seq<char>>((o3, k2)));
    assert(sections_after(blob, 3) == Ok::<(int, KnownSections), Seq<char>>((blob.len() as int, k3)));
}

/// A blob with a valid header whose three sections read back is accepted.
proof fn lemma_frame_accepts(blob: Seq<u8>, meta: Seq<u8>, machine: Seq<u8>, anchors: Seq<u8>)
    requires
        12 <= blob.len() <= 33554432,
        blob.take(4) == seq![77u8, 82u8, 68u8, 82u8],
        read_be16(blob, 4) == 1,
        read_be16(blob, 6) == 3,
        read_be32(blob, 8) == blob.len() - 12,
        sections_after(blob, 3) == Ok::<(int, KnownSections), Seq<char>>(
            (blob.len() as int, (Some(meta), Some(machine), Some(anchors))),
        ),
    ensures
        radar_frame(blob) == Ok::<(Seq<u8>, Seq<u8>, Seq<u8>), Seq<char>>((meta, machine, anchors)),
{
}

/// Framing three payloads and checking the frame gives them back.
pub proof fn law_radar_frame_round_trip(meta: Seq<u8>, machine: Seq<u8>, anchors: Seq<u8>)
    requires
        sha256_of(meta).len() == 32,
        sha256_of(machine).len() == 32,
        sha256_of(anchors).len() == 32,
        radar_blob_seq(meta, machine, anchors).len() <= 33554432,
    ensures
        radar_frame(radar_blob_seq(meta, machine, anchors)) == Ok::<(Seq<u8>, Seq<u8>, Seq<u8>), Seq<char>>((meta, machine, anchors)),
{
    let blob = radar_blob_seq(meta, machine, anchors);
    assert(radar_body(meta, machine, anchors).len() <= u32::MAX);
    lemma_blob_layout(meta, machine, anchors);
    lemma_three_sections(blob, meta, machine, anchors);
    lemma_frame_accepts(blob, meta, machine, anchors);
}

/// Frames the metadata, automaton and anchor payloads as a radar blob; a
/// blob within the size the reader accepts reads back as the three
/// payloads.
pub fn frame_radar_blob(meta: &[u8], machine: &[u8], anchors: &[u8]) -> (r: Vec<u8>)
    requires
        meta.len() + machine.len() + anchors.len() + 120 <= u32::MAX,
    ensures
        r@ == radar_blob_seq(meta@, machine@, anchors@),
        r@.len() <= 33554432 ==> radar_frame(r@) == Ok::<(Seq<u8>, Seq<u8>, Seq<u8>), Seq<char>>((meta@, machine@, anchors@)),
{
    let mut body: Vec<u8> = Vec::new();
    push_section(&mut body, 1, meta);
    push_section(&mut body, 2, machine);
    push_section(&mut body, 3, anchors);
    assert(body@ =~= radar_body(meta@, machine@, anchors@));
    let mut blob: Vec<u8> = Vec::new();
    blob.push(77u8);
    blob.push(82u8);
    blob.push(68u8);
    blob.push(82u8);
    push_be16(&mut blob, 1);
    push_be16(&mut blob, 3);
    push_be32(&mut blob, body.len() as u32);
    push_bytes(&mut blob, body.as_slice());
    assert(blob@ =~= radar_blob_seq(meta@, machine@, anchors@));
    proof {
        if blob@.len() <= 33554432 {
            law_radar_frame_round_trip(meta@, machine@, anchors@);
        }
    }
    blob
}

} // verus!
