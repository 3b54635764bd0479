use vstd::prelude::*;
use vstd::bytes::{spec_u64_to_le_bytes, u64_from_le_bytes, u64_to_le_bytes};
use vstd::slice::slice_subrange;
use crate::cache::RiskCache;
use crate::cell::{canonical_byte, is_canonical};
use crate::coords::Coord;
use crate::field::{Field, SIZE_LIMIT};
use crate::judges::Judge;
use crate::risk::Risk;

verus! {

/// The stream cannot be parsed, in either the current or the legacy layout.
#[derive(Clone, Copy, Debug, PartialEq, Eq, Structural)]
pub struct DecodeError;

/// The three bytes every current-format stream starts with.
pub open spec fn spec_magic() -> Seq<u8> {
    seq![0x4du8, 0x46u8, 0x02u8]
}

pub open spec fn spec_enc_u64(v: u64) -> Seq<u8> {
    spec_u64_to_le_bytes(v)
}

pub open spec fn spec_enc_i64(v: i64) -> Seq<u8> {
    spec_u64_to_le_bytes(v as u64)
}

pub open spec fn spec_enc_risk(r: Risk) -> Seq<u8> {
    spec_enc_u64(r.num) + spec_enc_u64(r.den)
}

pub open spec fn spec_enc_chunk(e: (Coord, Vec<u8>)) -> Seq<u8> {
    spec_enc_i64(e.0.0) + spec_enc_i64(e.0.1) + e.1@
}

pub open spec fn spec_enc_chunks(s: Seq<(Coord, Vec<u8>)>) -> Seq<u8>
    decreases s.len(),
{
    if s.len() == 0 {
        Seq::empty()
    } else {
        spec_enc_chunks(s.drop_last()) + spec_enc_chunk(s.last())
    }
}

pub open spec fn spec_enc_entry(e: (Risk, Coord)) -> Seq<u8> {
    spec_enc_i64(e.1.0) + spec_enc_i64(e.1.1) + spec_enc_risk(e.0)
}

pub open spec fn spec_enc_entries(s: Seq<(Risk, Coord)>) -> Seq<u8>
    decreases s.len(),
{
    if s.len() == 0 {
        Seq::empty()
    } else {
        spec_enc_entries(s.drop_last()) + spec_enc_entry(s.last())
    }
}

/// The byte tag of each policy.
pub open spec fn spec_judge_tag(j: Judge) -> u8 {
    match j {
        Judge::Random => 0u8,
        Judge::Strict => 1u8,
        Judge::Kind => 2u8,
        Judge::Local => 3u8,
        Judge::Global => 4u8,
        Judge::KaboomGlobal => 5u8,
        Judge::KaboomLocal => 6u8,
    }
}

pub open spec fn spec_enc_size(s: Option<(usize, usize)>) -> Seq<u8> {
    match s {
        Option::None => seq![0u8],
        Option::Some((w, h)) => seq![1u8] + spec_enc_u64(w as u64) + spec_enc_u64(h as u64),
    }
}

/// The whole current-format stream for a field.
pub open spec fn spec_encode(f: Field) -> Seq<u8> {
    spec_magic() + spec_enc_u64(f.chunks@.len() as u64) + spec_enc_chunks(f.chunks@)
        + spec_enc_u64(f.risk_cache.entries@.len() as u64) + spec_enc_entries(
        f.risk_cache.entries@,
    ) + spec_enc_risk(f.density) + seq![spec_judge_tag(f.judge)] + seq![
        if f.solvable {
            1u8
        } else {
            0u8
        },
    ] + spec_enc_size(f.size) + spec_enc_u64(f.cells_revealed as u64) + spec_enc_u64(
        f.time_elapsed_ms,
    )
}

/// Appends one little-endian 64-bit value.
pub(crate) fn put_u64(out: &mut Vec<u8>, v: u64)
    ensures
        final(out)@ == old(out)@ + spec_enc_u64(v),
{
    let mut piece = u64_to_le_bytes(v);
    out.append(&mut piece);
}

pub(crate) fn put_i64(out: &mut Vec<u8>, v: i64)
    ensures
        final(out)@ == old(out)@ + spec_enc_i64(v),
{
    put_u64(out, v as u64);
}

/// Appends a copy of `src`.
pub(crate) fn append_bytes(out: &mut Vec<u8>, src: &Vec<u8>)
    ensures
        final(out)@ == old(out)@ + src@,
{
    let n = src.len();
    let mut i: usize = 0;
    while i < n
        invariant
            n == src@.len(),
            i <= n,
            out@ == old(out)@ + src@.take(i as int),
        decreases n - i,
    {
        out.push(src[i]);
        proof {
            assert(out@ == old(out)@ + src@.take(i + 1)) by {
                assert(src@.take(i + 1) =~= src@.take(i as int).push(src@[i as int]));
            }
        }
        i += 1;
    }
    proof {
        assert(src@.take(n as int) =~= src@);
    }
}

/// Byte-for-byte comparison.
pub(crate) fn bytes_eq(a: &Vec<u8>, b: &[u8]) -> (r: bool)
    ensures
        r == (a@ =~= b@),
{
    if a.len() != b.len() {
        return false;
    }
    let n = a.len();
    let mut i: usize = 0;
    while i < n
        invariant
            n == a@.len(),
            n == b@.len(),
            i <= n,
            forall|j: int| 0 <= j < i ==> a@[j] == b@[j],
        decreases n - i,
    {
        if a[i] != *crate::codec::slice_at(b, i) {
            return false;
        }
        i += 1;
    }
    proof {
        assert(a@ =~= b@);
    }
    true
}

/// Reads one byte of a slice.
pub(crate) fn slice_at(s: &[u8], i: usize) -> (r: &u8)
    requires
        i < s@.len(),
    ensures
        *r == s@[i as int],
{
    &s[i]
}

/// Reads a little-endian 64-bit value, advancing the position.
pub(crate) fn read_u64(bytes: &[u8], pos: usize) -> (r: Option<(u64, usize)>)
    ensures
        r is Some ==> r.unwrap().1 <= bytes@.len() && r.unwrap().1 == pos + 8,
        pos + 8 <= bytes@.len() ==> r is Some,
        r is Some ==> r.unwrap().0 == vstd::bytes::spec_u64_from_le_bytes(
            bytes@.subrange(pos as int, pos + 8),
        ),
{
    if pos > bytes.len() || bytes.len() - pos < 8 {
        return None;
    }
    let piece = slice_subrange(bytes, pos, pos + 8);
    let v = u64_from_le_bytes(piece);
    Some((v, pos + 8))
}

pub(crate) fn read_i64(bytes: &[u8], pos: usize) -> (r: Option<(i64, usize)>)
    ensures
        r is Some ==> r.unwrap().1 <= bytes@.len() && r.unwrap().1 == pos + 8,
        pos + 8 <= bytes@.len() ==> r is Some,
        r is Some ==> r.unwrap().0 == vstd::bytes::spec_u64_from_le_bytes(
            bytes@.subrange(pos as int, pos + 8),
        ) as i64,
{
    match read_u64(bytes, pos) {
        Some((v, p)) => Some((v as i64, p)),
        None => None,
    }
}

pub(crate) fn read_u8(bytes: &[u8], pos: usize) -> (r: Option<(u8, usize)>)
    ensures
        r is Some ==> r.unwrap().1 <= bytes@.len() && r.unwrap().1 == pos + 1,
        pos < bytes@.len() ==> r is Some,
        r is Some ==> r.unwrap().0 == bytes@[pos as int],
{
    if pos < bytes.len() {
        Some((*slice_at(bytes, pos), pos + 1))
    } else {
        None
    }
}


/// A concatenation splits back into its two parts.
pub(crate) proof fn lemma_split_at(s: Seq<u8>, a: Seq<u8>, b: Seq<u8>)
    requires
        s == a + b,
    ensures
        a == s.subrange(0, a.len() as int),
        b == s.subrange(a.len() as int, s.len() as int),
{
    assert(a =~= s.subrange(0, a.len() as int));
    assert(b =~= s.subrange(a.len() as int, s.len() as int));
}

/// A window of a window is a window.
pub(crate) proof fn lemma_sub_compose(s: Seq<u8>, a: int, b: int, c: int, d: int)
    requires
        0 <= a <= b <= s.len(),
        0 <= c <= d <= b - a,
    ensures
        s.subrange(a, b).subrange(c, d) == s.subrange(a + c, a + d),
{
    assert(s.subrange(a, b).subrange(c, d) =~= s.subrange(a + c, a + d));
}

/// Where chunk `j` sits inside the chunk section.
pub(crate) proof fn lemma_enc_chunks_at(s: Seq<(Coord, Vec<u8>)>, j: int)
    requires
        forall|i: int| 0 <= i < s.len() ==> (#[trigger] s[i]).1@.len() == 4096,
        0 <= j < s.len(),
    ensures
        spec_enc_chunks(s).subrange(4112 * j, 4112 * (j + 1)) == spec_enc_chunk(s[j]),
    decreases s.len(),
{
    vstd::bytes::lemma_auto_spec_u64_to_from_le_bytes();
    lemma_enc_chunks_len(s);
    assert(forall|i: int|
        0 <= i < s.drop_last().len() ==> (#[trigger] s.drop_last()[i]).1@.len() == 4096);
    lemma_enc_chunks_len(s.drop_last());
    lemma_split_at(spec_enc_chunks(s), spec_enc_chunks(s.drop_last()), spec_enc_chunk(s.last()));
    if j == s.len() - 1 {
        assert(s.last().1@.len() == 4096);
    } else {
        lemma_enc_chunks_at(s.drop_last(), j);
        assert(s.drop_last()[j] == s[j]);
        lemma_sub_compose(
            spec_enc_chunks(s),
            0,
            4112 * s.drop_last().len() as int,
            4112 * j,
            4112 * (j + 1),
        );
    }
}

/// Where entry `j` sits inside the cache section.
pub(crate) proof fn lemma_enc_entries_at(s: Seq<(Risk, Coord)>, j: int)
    requires
        0 <= j < s.len(),
    ensures
        spec_enc_entries(s).subrange(32 * j, 32 * (j + 1)) == spec_enc_entry(s[j]),
    decreases s.len(),
{
    vstd::bytes::lemma_auto_spec_u64_to_from_le_bytes();
    lemma_enc_entries_len(s);
    lemma_enc_entries_len(s.drop_last());
    lemma_split_at(
        spec_enc_entries(s),
        spec_enc_entries(s.drop_last()),
        spec_enc_entry(s.last()),
    );
    if j < s.len() - 1 {
        lemma_enc_entries_at(s.drop_last(), j);
        assert(s.drop_last()[j] == s[j]);
        lemma_sub_compose(
            spec_enc_entries(s),
            0,
            32 * s.drop_last().len() as int,
            32 * j,
            32 * (j + 1),
        );
    }
}

/// Chunk lists that agree coordinate by coordinate and byte by byte encode
/// the same section.
pub(crate) proof fn lemma_enc_chunks_congruent(s1: Seq<(Coord, Vec<u8>)>, s2: Seq<(Coord, Vec<u8>)>)
    requires
        s1.len() == s2.len(),
        forall|i: int|
            0 <= i < s1.len() ==> (#[trigger] s1[i]).0 == s2[i].0 && s1[i].1@ == s2[i].1@,
    ensures
        spec_enc_chunks(s1) == spec_enc_chunks(s2),
    decreases s1.len(),
{
    if s1.len() > 0 {
        assert(forall|i: int|
            0 <= i < s1.drop_last().len() ==> (#[trigger] s1.drop_last()[i]).0
                == s2.drop_last()[i].0 && s1.drop_last()[i].1@ == s2.drop_last()[i].1@);
        lemma_enc_chunks_congruent(s1.drop_last(), s2.drop_last());
        assert(s1.last().0 == s2.last().0 && s1.last().1@ == s2.last().1@);
        assert(spec_enc_chunk(s1.last()) == spec_enc_chunk(s2.last()));
    }
}


/// Where every section of a well-formed state's stream sits.
#[verifier::rlimit(100)]
#[verifier::spinoff_prover]
pub(crate) proof fn lemma_layout(g: Field)
    requires
        g.wf(),
    ensures
        ({
            let e = spec_encode(g);
            let nn = g.chunks@.len() as int;
            let mm = g.risk_cache.entries@.len() as int;
            let o1 = 11 + 4112 * nn;
            let o2 = o1 + 8 + 32 * mm;
            let ll = o2 + 35 + (if g.size is Some {
                16int
            } else {
                0
            });
            &&& e.len() == ll
            &&& e.subrange(0, 3) == spec_magic()
            &&& e.subrange(3, 11) == spec_enc_u64(g.chunks@.len() as u64)
            &&& e.subrange(11, o1) == spec_enc_chunks(g.chunks@)
            &&& e.subrange(o1, o1 + 8) == spec_enc_u64(g.risk_cache.entries@.len() as u64)
            &&& e.subrange(o1 + 8, o2) == spec_enc_entries(g.risk_cache.entries@)
            &&& e.subrange(o2, o2 + 8) == spec_enc_u64(g.density.num)
            &&& e.subrange(o2 + 8, o2 + 16) == spec_enc_u64(g.density.den)
            &&& e[o2 + 16] == spec_judge_tag(g.judge)
            &&& e[o2 + 17] == (if g.solvable {
                1u8
            } else {
                0u8
            })
            &&& e[o2 + 18] == (if g.size is Some {
                1u8
            } else {
                0u8
            })
            &&& (g.size matches Some((w, h)) ==> e.subrange(o2 + 19, o2 + 27) == spec_enc_u64(
                w as u64,
            ) && e.subrange(o2 + 27, o2 + 35) == spec_enc_u64(h as u64))
            &&& e.subrange(ll - 16, ll - 8) == spec_enc_u64(g.cells_revealed as u64)
            &&& e.subrange(ll - 8, ll) == spec_enc_u64(g.time_elapsed_ms)
        }),
{
    vstd::bytes::lemma_auto_spec_u64_to_from_le_bytes();
    lemma_enc_chunks_len(g.chunks@);
    lemma_enc_entries_len(g.risk_cache.entries@);
    let e = spec_encode(g);
    let nn = g.chunks@.len() as int;
    let mm = g.risk_cache.entries@.len() as int;
    let o1 = 11 + 4112 * nn;
    let o2 = o1 + 8 + 32 * mm;
    let n1 = spec_enc_u64(g.chunks@.len() as u64);
    let ch = spec_enc_chunks(g.chunks@);
    let n2 = spec_enc_u64(g.risk_cache.entries@.len() as u64);
    let en = spec_enc_entries(g.risk_cache.entries@);
    let de = spec_enc_risk(g.density);
    let ju = seq![spec_judge_tag(g.judge)];
    let so = seq![
        if g.solvable {
            1u8
        } else {
            0u8
        },
    ];
    let si = spec_enc_size(g.size);
    let ce = spec_enc_u64(g.cells_revealed as u64);
    let ti = spec_enc_u64(g.time_elapsed_ms);
    let pf1 = spec_magic() + n1;
    let pf2 = pf1 + ch;
    let pf3 = pf2 + n2;
    let pf4 = pf3 + en;
    let pf5 = pf4 + de;
    let pf6 = pf5 + ju;
    let pf7 = pf6 + so;
    let pf8 = pf7 + si;
    let pf9 = pf8 + ce;
    assert(e == pf9 + ti);
    let ll = e.len() as int;
    lemma_split_at(e, pf9, ti);
    lemma_split_at(pf9, pf8, ce);
    lemma_split_at(pf8, pf7, si);
    lemma_split_at(pf7, pf6, so);
    lemma_split_at(pf6, pf5, ju);
    lemma_split_at(pf5, pf4, de);
    lemma_split_at(pf4, pf3, en);
    lemma_split_at(pf3, pf2, n2);
    lemma_split_at(pf2, pf1, ch);
    lemma_split_at(pf1, spec_magic(), n1);
    // lift each split to a window of the whole stream
    lemma_sub_compose(e, 0, pf9.len() as int, pf8.len() as int, pf9.len() as int);
    lemma_sub_compose(e, 0, pf9.len() as int, 0, pf8.len() as int);
    lemma_sub_compose(e, 0, pf8.len() as int, pf7.len() as int, pf8.len() as int);
    lemma_sub_compose(e, 0, pf8.len() as int, 0, pf7.len() as int);
    lemma_sub_compose(e, 0, pf7.len() as int, pf6.len() as int, pf7.len() as int);
    lemma_sub_compose(e, 0, pf7.len() as int, 0, pf6.len() as int);
    lemma_sub_compose(e, 0, pf6.len() as int, pf5.len() as int, pf6.len() as int);
    lemma_sub_compose(e, 0, pf6.len() as int, 0, pf5.len() as int);
    lemma_sub_compose(e, 0, pf5.len() as int, pf4.len() as int, pf5.len() as int);
    lemma_sub_compose(e, 0, pf5.len() as int, 0, pf4.len() as int);
    lemma_sub_compose(e, 0, pf4.len() as int, pf3.len() as int, pf4.len() as int);
    lemma_sub_compose(e, 0, pf4.len() as int, 0, pf3.len() as int);
    lemma_sub_compose(e, 0, pf3.len() as int, pf2.len() as int, pf3.len() as int);
    lemma_sub_compose(e, 0, pf3.len() as int, 0, pf2.len() as int);
    lemma_sub_compose(e, 0, pf2.len() as int, pf1.len() as int, pf2.len() as int);
    lemma_sub_compose(e, 0, pf2.len() as int, 0, pf1.len() as int);
    lemma_sub_compose(e, 0, pf1.len() as int, 3, pf1.len() as int);
    lemma_sub_compose(e, 0, pf1.len() as int, 0, 3);
    assert(e.subrange(o2 + 16, o2 + 17) == ju);
    assert(e[o2 + 16] == ju[0]);
    assert(e.subrange(o2 + 17, o2 + 18) == so);
    assert(e[o2 + 17] == so[0]);
    // the finite-size section splits further when present
    match g.size {
        Option::None => {
            assert(e[o2 + 18] == si[0]);
        },
        Option::Some((w, h)) => {
            let sflag = seq![1u8];
            let sw = spec_enc_u64(w as u64);
            let sh = spec_enc_u64(h as u64);
            assert(si == sflag + sw + sh);
            lemma_split_at(si, sflag + sw, sh);
            lemma_split_at(sflag + sw, sflag, sw);
            assert(e.subrange(o2 + 18, o2 + 35) == si);
            lemma_sub_compose(e, o2 + 18, o2 + 35, 0, 17);
            lemma_sub_compose(e, o2 + 18, o2 + 35, 0, 1);
            lemma_sub_compose(e, o2 + 18, o2 + 35, 1, 9);
            lemma_sub_compose(e, o2 + 18, o2 + 35, 9, 17);
            assert(sw == si.subrange(1, 9));
            assert(sh == si.subrange(9, 17));
            assert(e.subrange(o2 + 19, o2 + 27) == sw);
            assert(e.subrange(o2 + 27, o2 + 35) == sh);
            assert(e.subrange(o2 + 18, o2 + 19) == sflag);
            assert(e[o2 + 18] == 1u8);
        },
    }
}

impl Field {
    /// Serializes the whole state in the current layout.
    #[verifier::rlimit(100)]
    pub fn save(&self) -> (out: Vec<u8>)
        ensures
            out@ == spec_encode(*self),
    {
        let mut out: Vec<u8> = Vec::new();
        out.push(0x4d);
        out.push(0x46);
        out.push(0x02);
        proof {
            assert(out@ =~= spec_magic());
        }
        put_u64(&mut out, self.chunks.len() as u64);
        let ghost base = out@;
        let n = self.chunks.len();
        let mut i: usize = 0;
        while i < n
            invariant
                n == self.chunks@.len(),
                i <= n,
                out@ == base + spec_enc_chunks(self.chunks@.take(i as int)),
            decreases n - i,
        {
            let e = &self.chunks[i];
            put_i64(&mut out, e.0.0);
            put_i64(&mut out, e.0.1);
            append_bytes(&mut out, &e.1);
            proof {
                let t = self.chunks@.take(i + 1);
                assert(t.drop_last() =~= self.chunks@.take(i as int));
                assert(t.last() == self.chunks@[i as int]);
                assert(out@ == base + spec_enc_chunks(self.chunks@.take(i + 1)));
            }
            i += 1;
        }
        proof {
            assert(self.chunks@.take(n as int) =~= self.chunks@);
        }
        put_u64(&mut out, self.risk_cache.len() as u64);
        let ghost base2 = out@;
        let m = self.risk_cache.len();
        let mut j: usize = 0;
        while j < m
            invariant
                m == self.risk_cache.entries@.len(),
                j <= m,
                out@ == base2 + spec_enc_entries(self.risk_cache.entries@.take(j as int)),
            decreases m - j,
        {
            let e = self.risk_cache.entries[j];
            put_i64(&mut out, e.1.0);
            put_i64(&mut out, e.1.1);
            put_u64(&mut out, e.0.num);
            put_u64(&mut out, e.0.den);
            proof {
                let t = self.risk_cache.entries@.take(j + 1);
                assert(t.drop_last() =~= self.risk_cache.entries@.take(j as int));
                assert(t.last() == self.risk_cache.entries@[j as int]);
                assert(out@ == base2 + spec_enc_entries(self.risk_cache.entries@.take(j + 1)));
            }
            j += 1;
        }
        proof {
            assert(self.risk_cache.entries@.take(m as int) =~= self.risk_cache.entries@);
        }
        put_u64(&mut out, self.density.num);
        put_u64(&mut out, self.density.den);
        let tag: u8 = match self.judge {
            Judge::Random => 0,
            Judge::Strict => 1,
            Judge::Kind => 2,
            Judge::Local => 3,
            Judge::Global => 4,
            Judge::KaboomGlobal => 5,
            Judge::KaboomLocal => 6,
        };
        out.push(tag);
        out.push(if self.solvable { 1 } else { 0 });
        match self.size {
            Some((w, h)) => {
                out.push(1);
                put_u64(&mut out, w as u64);
                put_u64(&mut out, h as u64);
            },
            None => {
                out.push(0);
            },
        }
        put_u64(&mut out, self.cells_revealed as u64);
        put_u64(&mut out, self.time_elapsed_ms);
        proof {
            assert(out@ =~= spec_encode(*self));
        }
        out
    }

    /// Parses a current-layout stream. A result is handed back only when
    /// re-encoding it reproduces the input exactly, so an accepted stream is
    /// the canonical encoding of the state it denotes — and every stream
    /// that is such an encoding is accepted.
    pub fn decode(bytes: &[u8]) -> (r: Result<Field, DecodeError>)
        ensures
            match r {
                Ok(f) => f.wf() && spec_encode(f) == bytes@,
                Err(_) => true,
            },
            (exists|g: Field| g.wf() && spec_encode(g) == bytes@) ==> r is Ok,
    {
        let f = match Self::parse(bytes) {
            Some(f) => f,
            None => { return Err(DecodeError) },
        };
        let back = f.save();
        if bytes_eq(&back, bytes) {
            Ok(f)
        } else {
            Err(DecodeError)
        }
    }

    /// Reads a stream in the current layout, falling back to the older one:
    /// an old stream comes back with its reveal counter recomputed from its
    /// chunks, its probability map as the ordered cache, no finite size, and
    /// the clock at zero. Every canonical current-layout encoding of a
    /// well-formed state is accepted.
    pub fn load(bytes: &[u8]) -> (r: Result<Field, DecodeError>)
        ensures
            (exists|g: Field| g.wf() && spec_encode(g) == bytes@) ==> r is Ok,
            (exists|lf: crate::legacy::Field|
                lf.wf() && crate::legacy::spec_encode_legacy(lf) == bytes@) ==> r is Ok,
            match r {
                Ok(f) => f.wf() && (spec_encode(f) == bytes@ || (exists|
                    lf: crate::legacy::Field,
                |
                    {
                        &&& #[trigger] crate::legacy::spec_encode_legacy(lf) == bytes@
                        &&& lf.wf()
                        &&& f.chunks == lf.chunks
                        &&& f.cells_revealed == crate::legacy::spec_revealed_total(lf.chunks@)
                        &&& f.risk_cache.entries@.len() == lf.risk_cache@.len()
                        &&& forall|i: int|
                            0 <= i < lf.risk_cache@.len() ==> f.risk_cache.spec_get(
                                (#[trigger] lf.risk_cache@[i]).0,
                            ) == Some(lf.risk_cache@[i].1)
                        &&& f.density == lf.density
                        &&& f.judge == crate::legacy::spec_upgrade_judge(lf.judge)
                        &&& f.solvable == lf.solvable
                        &&& f.size == Option::<(usize, usize)>::None
                        &&& f.time_elapsed_ms == 0
                    })),
                Err(_) => true,
            },
    {
        match Self::decode(bytes) {
            Ok(f) => Ok(f),
            Err(_) => match crate::legacy::Field::load(bytes) {
                Ok(lf) => Ok(lf.upgrade()),
                Err(e) => Err(e),
            },
        }
    }

    #[verifier::rlimit(100)]
    #[verifier::spinoff_prover]
    fn parse(bytes: &[u8]) -> (r: Option<Field>)
        ensures
            r is Some ==> r.unwrap().wf(),
            (exists|g: Field| g.wf() && spec_encode(g) == bytes@) ==> r is Some && spec_encode(
                r.unwrap(),
            ) == bytes@,
    {
        let ghost hyp = exists|g: Field| g.wf() && spec_encode(g) == bytes@;
        let ghost g: Field = if hyp {
            choose|g: Field| g.wf() && spec_encode(g) == bytes@
        } else {
            arbitrary()
        };
        let ghost nn = g.chunks@.len() as int;
        let ghost mm = g.risk_cache.entries@.len() as int;
        let ghost o1 = 11 + 4112 * nn;
        let ghost o2 = o1 + 8 + 32 * mm;
        let ghost ll = o2 + 35 + (if g.size is Some {
            16int
        } else {
            0
        });
        proof {
            if hyp {
                lemma_layout(g);
                lemma_enc_chunks_len(g.chunks@);
                lemma_enc_entries_len(g.risk_cache.entries@);
                vstd::std_specs::vec::axiom_spec_len(&g.chunks);
                vstd::std_specs::vec::axiom_spec_len(&g.risk_cache.entries);
                vstd::bytes::lemma_auto_spec_u64_to_from_le_bytes();
                assert(bytes@[0] == spec_magic()[0]) by {
                    assert(bytes@.subrange(0, 3)[0] == bytes@[0]);
                }
                assert(bytes@[1] == spec_magic()[1]) by {
                    assert(bytes@.subrange(0, 3)[1] == bytes@[1]);
                }
                assert(bytes@[2] == spec_magic()[2]) by {
                    assert(bytes@.subrange(0, 3)[2] == bytes@[2]);
                }
            }
        }
        let mut pos: usize = 0;
        let (m0, p0) = match read_u8(bytes, pos) {
            Some(v) => v,
            None => {
                proof {
                    if hyp {
                        assert(false);
                    }
                }
                return None;
            },
        };
        let (m1, p1) = match read_u8(bytes, p0) {
            Some(v) => v,
            None => {
                proof {
                    if hyp {
                        assert(false);
                    }
                }
                return None;
            },
        };
        let (m2, p2) = match read_u8(bytes, p1) {
            Some(v) => v,
            None => {
                proof {
                    if hyp {
                        assert(false);
                    }
                }
                return None;
            },
        };
        if m0 != 0x4d || m1 != 0x46 || m2 != 0x02 {
            proof {
                if hyp {
                    assert(false);
                }
            }
            return None;
        }
        pos = p2;
        let ghost chunks_exp: Option<Seq<(Coord, Vec<u8>)>> = if hyp {
            Some(g.chunks@)
        } else {
            None
        };
        let (chunks, p3) = match parse_chunks(bytes, pos, Ghost(chunks_exp)) {
            Some(v) => v,
            None => {
                proof {
                    if hyp {
                        assert(false);
                    }
                }
                return None;
            },
        };
        pos = p3;
        proof {
            if hyp {
                assert(p3 == o1);
            }
        }
        let ghost cache_exp: Option<Seq<(Risk, Coord)>> = if hyp {
            Some(g.risk_cache.entries@)
        } else {
            None
        };
        let (cache, p4) = match parse_cache(bytes, pos, Ghost(cache_exp)) {
            Some(v) => v,
            None => {
                proof {
                    if hyp {
                        assert(false);
                    }
                }
                return None;
            },
        };
        pos = p4;
        proof {
            if hyp {
                assert(p4 == o2);
            }
        }
        let (dnum, p5) = match read_u64(bytes, pos) {
            Some(v) => v,
            None => {
                proof {
                    if hyp {
                        assert(false);
                    }
                }
                return None;
            },
        };
        let (dden, p6) = match read_u64(bytes, p5) {
            Some(v) => v,
            None => {
                proof {
                    if hyp {
                        assert(false);
                    }
                }
                return None;
            },
        };
        proof {
            if hyp {
                assert(dnum == g.density.num && dden == g.density.den);
            }
        }
        let density = match Risk::new(dnum, dden) {
            Some(d) => d,
            None => {
                proof {
                    if hyp {
                        assert(false);
                    }
                }
                return None;
            },
        };
        let (tag, p7) = match read_u8(bytes, p6) {
            Some(v) => v,
            None => {
                proof {
                    if hyp {
                        assert(false);
                    }
                }
                return None;
            },
        };
        proof {
            if hyp {
                assert(tag == spec_judge_tag(g.judge));
            }
        }
        let judge = match tag {
            0 => Judge::Random,
            1 => Judge::Strict,
            2 => Judge::Kind,
            3 => Judge::Local,
            4 => Judge::Global,
            5 => Judge::KaboomGlobal,
            6 => Judge::KaboomLocal,
            _ => {
                proof {
                    if hyp {
                        assert(false);
                    }
                }
                return None;
            },
        };
        proof {
            if hyp {
                assert(judge == g.judge);
            }
        }
        let (sv, p8) = match read_u8(bytes, p7) {
            Some(v) => v,
            None => {
                proof {
                    if hyp {
                        assert(false);
                    }
                }
                return None;
            },
        };
        let solvable = match sv {
            0 => false,
            1 => true,
            _ => {
                proof {
                    if hyp {
                        assert(false);
                    }
                }
                return None;
            },
        };
        let (sflag, p9) = match read_u8(bytes, p8) {
            Some(v) => v,
            None => {
                proof {
                    if hyp {
                        assert(false);
                    }
                }
                return None;
            },
        };
        let mut pos2 = p9;
        let size: Option<(usize, usize)> = match sflag {
            0 => None,
            1 => {
                let (w, pa) = match read_u64(bytes, pos2) {
                    Some(v) => v,
                    None => {
                        proof {
                            if hyp {
                                assert(false);
                            }
                        }
                        return None;
                    },
                };
                let (h, pb) = match read_u64(bytes, pa) {
                    Some(v) => v,
                    None => {
                        proof {
                            if hyp {
                                assert(false);
                            }
                        }
                        return None;
                    },
                };
                pos2 = pb;
                if w >= SIZE_LIMIT as u64 || h >= SIZE_LIMIT as u64 {
                    proof {
                        if hyp {
                            assert(g.size is Some);
                            assert(false);
                        }
                    }
                    return None;
                }
                Some((w as usize, h as usize))
            },
            _ => {
                proof {
                    if hyp {
                        assert(false);
                    }
                }
                return None;
            },
        };
        proof {
            if hyp {
                assert(solvable == g.solvable);
                assert(size == g.size);
                assert(pos2 == ll - 16);
            }
        }
        let (cells, pc) = match read_u64(bytes, pos2) {
            Some(v) => v,
            None => {
                proof {
                    if hyp {
                        assert(false);
                    }
                }
                return None;
            },
        };
        if cells > usize::MAX as u64 {
            proof {
                if hyp {
                    assert(cells == g.cells_revealed as u64);
                    assert(false);
                }
            }
            return None;
        }
        let (time, pd) = match read_u64(bytes, pc) {
            Some(v) => v,
            None => {
                proof {
                    if hyp {
                        assert(false);
                    }
                }
                return None;
            },
        };
        if pd != bytes.len() {
            proof {
                if hyp {
                    assert(pd == ll);
                    assert(false);
                }
            }
            return None;
        }
        let f = Field {
            chunks,
            risk_cache: cache,
            density,
            judge,
            solvable,
            size,
            cells_revealed: cells as usize,
            time_elapsed_ms: time,
        };
        proof {
            if hyp {
                assert(f.chunks@.len() == g.chunks@.len());
                lemma_enc_chunks_congruent(f.chunks@, g.chunks@);
                assert(f.risk_cache.entries@ == g.risk_cache.entries@);
                assert(f.density == g.density);
                assert(f.cells_revealed == g.cells_revealed);
                assert(f.time_elapsed_ms == g.time_elapsed_ms);
                assert(spec_enc_u64(f.chunks@.len() as u64) == spec_enc_u64(
                    g.chunks@.len() as u64,
                ));
                assert(spec_enc_u64(f.risk_cache.entries@.len() as u64) == spec_enc_u64(
                    g.risk_cache.entries@.len() as u64,
                ));
                assert(spec_encode(f) == spec_encode(g));
            }
        }
        Some(f)
    }
}

/// Parses the chunk list, refusing duplicate coordinates, short blocks and
/// non-canonical cell bytes.
pub(crate) fn parse_chunks(
    bytes: &[u8],
    pos: usize,
    Ghost(exp): Ghost<Option<Seq<(Coord, Vec<u8>)>>>,
) -> (r: Option<(Vec<(Coord, Vec<u8>)>, usize)>)
    requires
        match exp {
            Some(cs) => {
                &&& cs.len() <= 0xffff_ffff_ffff_ffff
                &&& pos + 8 + 4112 * cs.len() <= bytes@.len()
                &&& bytes@.subrange(pos as int, pos + 8) == spec_enc_u64(cs.len() as u64)
                &&& bytes@.subrange(pos + 8, pos + 8 + 4112 * cs.len()) == spec_enc_chunks(cs)
                &&& forall|i: int, j: int|
                    0 <= i < j < cs.len() ==> (#[trigger] cs[i]).0 != (#[trigger] cs[j]).0
                &&& forall|i: int| 0 <= i < cs.len() ==> (#[trigger] cs[i]).1@.len() == 4096
                &&& forall|i: int, k: int|
                    0 <= i < cs.len() && 0 <= k < 4096 ==> canonical_byte(
                        #[trigger] cs[i].1@[k],
                    )
            },
            None => true,
        },
    ensures
        match r {
            Some((cs, p)) => {
                &&& p <= bytes@.len()
                &&& cs@.len() * 4112 <= bytes@.len()
                &&& forall|i: int, j: int|
                    0 <= i < j < cs@.len() ==> (#[trigger] cs@[i]).0 != (#[trigger] cs@[j]).0
                &&& forall|i: int| 0 <= i < cs@.len() ==> (#[trigger] cs@[i]).1@.len() == 4096
                &&& forall|i: int, k: int|
                    0 <= i < cs@.len() && 0 <= k < 4096 ==> canonical_byte(
                        #[trigger] cs@[i].1@[k],
                    )
            },
            None => true,
        },
        exp matches Some(cs) ==> r is Some && r.unwrap().0@.len() == cs.len() && (forall|i: int|
            0 <= i < cs.len() ==> (#[trigger] r.unwrap().0@[i]).0 == cs[i].0
                && r.unwrap().0@[i].1@ == cs[i].1@) && r.unwrap().1 == pos + 8 + 4112 * cs.len(),
{
    let ghost hyp = exp is Some;
    let ghost cs0: Seq<(Coord, Vec<u8>)> = if hyp {
        exp.unwrap()
    } else {
        Seq::empty()
    };
    let bl = bytes.len();
    proof {
        if hyp {
            vstd::bytes::lemma_auto_spec_u64_to_from_le_bytes();
        }
    }
    let (n64, p0) = match read_u64(bytes, pos) {
        Some(v) => v,
        None => {
            proof {
                if hyp {
                    assert(false);
                }
            }
            return None;
        },
    };
    proof {
        if hyp {
            vstd::bytes::lemma_auto_spec_u64_to_from_le_bytes();
            assert(n64 == cs0.len() as u64);
            assert(4112 * cs0.len() <= bl);
            assert(cs0.len() <= usize::MAX);
        }
    }
    if n64 > usize::MAX as u64 {
        proof {
            if hyp {
                assert(false);
            }
        }
        return None;
    }
    let n = n64 as usize;
    proof {
        if hyp {
            assert(n == cs0.len());
        }
    }
    let mut cs: Vec<(Coord, Vec<u8>)> = Vec::new();
    let mut p = p0;
    let mut i: usize = 0;
    while i < n
        invariant
            i <= n,
            p <= bytes@.len(),
            bl == bytes@.len(),
            cs@.len() == i,
            p == p0 + 4112 * i,
            p0 == pos + 8,
            p0 <= bytes@.len(),
            forall|a: int, b: int|
                0 <= a < b < cs@.len() ==> (#[trigger] cs@[a]).0 != (#[trigger] cs@[b]).0,
            forall|a: int| 0 <= a < cs@.len() ==> (#[trigger] cs@[a]).1@.len() == 4096,
            forall|a: int, k: int|
                0 <= a < cs@.len() && 0 <= k < 4096 ==> canonical_byte(#[trigger] cs@[a].1@[k]),
            hyp == (exp is Some),
            hyp ==> cs0 == exp.unwrap(),
            hyp ==> {
                &&& n == cs0.len()
                &&& pos + 8 + 4112 * cs0.len() <= bytes@.len()
                &&& bytes@.subrange(pos + 8, pos + 8 + 4112 * cs0.len()) == spec_enc_chunks(cs0)
                &&& forall|a: int, b: int|
                    0 <= a < b < cs0.len() ==> (#[trigger] cs0[a]).0 != (#[trigger] cs0[b]).0
                &&& forall|a: int| 0 <= a < cs0.len() ==> (#[trigger] cs0[a]).1@.len() == 4096
                &&& forall|a: int, k: int|
                    0 <= a < cs0.len() && 0 <= k < 4096 ==> canonical_byte(
                        #[trigger] cs0[a].1@[k],
                    )
                &&& forall|a: int|
                    0 <= a < i ==> (#[trigger] cs@[a]).0 == cs0[a].0 && cs@[a].1@ == cs0[a].1@
            },
        decreases n - i,
    {
        proof {
            if hyp {
                vstd::bytes::lemma_auto_spec_u64_to_from_le_bytes();
                lemma_enc_chunks_at(cs0, i as int);
                lemma_sub_compose(
                    bytes@,
                    pos + 8,
                    pos + 8 + 4112 * cs0.len(),
                    4112 * i,
                    4112 * (i + 1),
                );
                let cb = spec_enc_chunk(cs0[i as int]);
                assert(bytes@.subrange(p as int, p + 4112) == cb);
                lemma_split_at(
                    cb,
                    spec_enc_i64(cs0[i as int].0.0) + spec_enc_i64(cs0[i as int].0.1),
                    cs0[i as int].1@,
                );
                lemma_split_at(
                    spec_enc_i64(cs0[i as int].0.0) + spec_enc_i64(cs0[i as int].0.1),
                    spec_enc_i64(cs0[i as int].0.0),
                    spec_enc_i64(cs0[i as int].0.1),
                );
                lemma_sub_compose(bytes@, p as int, p + 4112, 0, 8);
                lemma_sub_compose(bytes@, p as int, p + 4112, 0, 16);
                lemma_sub_compose(bytes@, p as int, p + 4112, 8, 16);
                lemma_sub_compose(bytes@, p as int, p + 4112, 16, 4112);
                assert(bytes@.subrange(p as int, p + 8) == spec_enc_i64(cs0[i as int].0.0));
                assert(bytes@.subrange(p + 8, p + 16) == spec_enc_i64(cs0[i as int].0.1));
                assert(bytes@.subrange(p + 16, p + 4112) == cs0[i as int].1@);
            }
        }
        let (cx, q0) = match read_i64(bytes, p) {
            Some(v) => v,
            None => {
                proof {
                    if hyp {
                        assert(false);
                    }
                }
                return None;
            },
        };
        let (cy, q1) = match read_i64(bytes, q0) {
            Some(v) => v,
            None => {
                proof {
                    if hyp {
                        assert(false);
                    }
                }
                return None;
            },
        };
        proof {
            if hyp {
                let w = cs0[i as int].0;
                assert(cx == (w.0 as u64) as i64 && cy == (w.1 as u64) as i64);
                assert forall|v: i64| #[trigger] ((v as u64) as i64) == v by {
                    assert((v as u64) as i64 == v) by (bit_vector);
                }
                assert((cx, cy) == w);
            }
        }
        // no two chunks may share a coordinate
        let cl = cs.len();
        let mut d: usize = 0;
        let mut dup = false;
        while d < cl
            invariant
                cl == cs@.len(),
                d <= cl,
                !dup ==> forall|a: int| 0 <= a < d ==> (#[trigger] cs@[a]).0 != (cx, cy),
                dup ==> exists|a: int| 0 <= a < d && (#[trigger] cs@[a]).0 == (cx, cy),
            decreases cl - d,
        {
            let e = &cs[d];
            if e.0.0 == cx && e.0.1 == cy {
                proof {
                    assert(cs@[d as int].0 == (cx, cy));
                }
                dup = true;
            }
            d += 1;
        }
        if dup {
            proof {
                if hyp {
                    let a = choose|a: int| 0 <= a < cl && (#[trigger] cs@[a]).0 == (cx, cy);
                    assert(cs0[a].0 == cs0[i as int].0);
                    assert(false);
                }
            }
            return None;
        }
        if q1 > bl || bl - q1 < 4096 {
            proof {
                if hyp {
                    assert(false);
                }
            }
            return None;
        }
        let mut block: Vec<u8> = Vec::new();
        let mut k: usize = 0;
        let mut bad = false;
        while k < 4096
            invariant
                bl == bytes@.len(),
                q1 + 4096 <= bl,
                k <= 4096,
                block@.len() == k,
                forall|t: int| 0 <= t < k ==> #[trigger] block@[t] == bytes@[q1 + t],
                !bad ==> forall|t: int| 0 <= t < k ==> canonical_byte(#[trigger] block@[t]),
                bad ==> exists|t: int| 0 <= t < k && !canonical_byte(#[trigger] bytes@[q1 + t]),
            decreases 4096 - k,
        {
            let b = *slice_at(bytes, q1 + k);
            if !is_canonical(b) {
                bad = true;
            }
            block.push(b);
            k += 1;
        }
        if bad {
            proof {
                if hyp {
                    let t = choose|t: int| 0 <= t < 4096 && !canonical_byte(
                        #[trigger] bytes@[q1 + t],
                    );
                    assert(bytes@.subrange(p + 16, p + 4112)[t] == bytes@[q1 + t]);
                    assert(cs0[i as int].1@[t] == bytes@[q1 + t]);
                    assert(false);
                }
            }
            return None;
        }
        let ghost before = cs@;
        cs.push(((cx, cy), block));
        proof {
            assert forall|a: int, b: int|
                0 <= a < b < cs@.len() implies (#[trigger] cs@[a]).0 != (#[trigger] cs@[b]).0 by {
                if b < cs@.len() - 1 {
                    assert(cs@[a] == before[a] && cs@[b] == before[b]);
                } else {
                    assert(cs@[b].0 == (cx, cy));
                    if a < cs@.len() - 1 {
                        assert(cs@[a] == before[a]);
                    }
                }
            }
            if hyp {
                assert(block@ =~= cs0[i as int].1@) by {
                    assert forall|t: int| 0 <= t < 4096 implies block@[t] == cs0[i as int].1@[t]
                    by {
                        assert(block@[t] == bytes@[q1 + t]);
                        assert(bytes@.subrange(p + 16, p + 4112)[t] == bytes@[q1 + t]);
                    }
                }
                assert forall|a: int|
                    0 <= a < i + 1 implies (#[trigger] cs@[a]).0 == cs0[a].0 && cs@[a].1@
                    == cs0[a].1@ by {
                    if a < i {
                        assert(cs@[a] == before[a]);
                    }
                }
            }
        }
        p = q1 + 4096;
        i += 1;
    }
    Some((cs, p))
}

/// Parses the frontier cache, refusing unordered, duplicated or invalid
/// entries.
pub(crate) fn parse_cache(
    bytes: &[u8],
    pos: usize,
    Ghost(exp): Ghost<Option<Seq<(Risk, Coord)>>>,
) -> (r: Option<(RiskCache, usize)>)
    requires
        match exp {
            Some(es) => {
                &&& es.len() <= 0xffff_ffff_ffff_ffff
                &&& pos + 8 + 32 * es.len() <= bytes@.len()
                &&& bytes@.subrange(pos as int, pos + 8) == spec_enc_u64(es.len() as u64)
                &&& bytes@.subrange(pos + 8, pos + 8 + 32 * es.len()) == spec_enc_entries(es)
                &&& forall|i: int, j: int|
                    0 <= i < j < es.len() ==> #[trigger] crate::cache::entry_lt(es[i], es[j])
                &&& forall|i: int, j: int|
                    0 <= i < j < es.len() ==> (#[trigger] es[i]).1 != (#[trigger] es[j]).1
                &&& forall|i: int| 0 <= i < es.len() ==> (#[trigger] es[i]).0.valid()
            },
            None => true,
        },
    ensures
        match r {
            Some((c, p)) => p <= bytes@.len() && c.wf(),
            None => true,
        },
        exp matches Some(es) ==> r is Some && r.unwrap().0.entries@ == es && r.unwrap().1 == pos
            + 8 + 32 * es.len(),
{
    let ghost hyp = exp is Some;
    let ghost es0: Seq<(Risk, Coord)> = if hyp {
        exp.unwrap()
    } else {
        Seq::empty()
    };
    let bl = bytes.len();
    proof {
        if hyp {
            vstd::bytes::lemma_auto_spec_u64_to_from_le_bytes();
        }
    }
    let (n64, p0) = match read_u64(bytes, pos) {
        Some(v) => v,
        None => {
            proof {
                if hyp {
                    assert(false);
                }
            }
            return None;
        },
    };
    proof {
        if hyp {
            vstd::bytes::lemma_auto_spec_u64_to_from_le_bytes();
            assert(n64 == es0.len() as u64);
            assert(32 * es0.len() <= bl);
            assert(es0.len() <= usize::MAX);
        }
    }
    if n64 > usize::MAX as u64 {
        proof {
            if hyp {
                assert(false);
            }
        }
        return None;
    }
    let n = n64 as usize;
    let mut v: Vec<(Risk, Coord)> = Vec::new();
    let mut p = p0;
    let mut i: usize = 0;
    while i < n
        invariant
            i <= n,
            p <= bytes@.len(),
            bl == bytes@.len(),
            v@.len() == i,
            p == p0 + 32 * i,
            p0 == pos + 8,
            p0 <= bytes@.len(),
            forall|a: int| 0 <= a < v@.len() ==> (#[trigger] v@[a]).0.valid(),
            forall|a: int|
                0 <= a && a + 1 < v@.len() ==> crate::cache::entry_lt(#[trigger] v@[a], v@[a + 1]),
            forall|a: int, b: int|
                0 <= a < b < v@.len() ==> (#[trigger] v@[a]).1 != (#[trigger] v@[b]).1,
            hyp == (exp is Some),
            hyp ==> es0 == exp.unwrap(),
            hyp ==> {
                &&& n == es0.len()
                &&& pos + 8 + 32 * es0.len() <= bytes@.len()
                &&& bytes@.subrange(pos + 8, pos + 8 + 32 * es0.len()) == spec_enc_entries(es0)
                &&& forall|a: int, b: int|
                    0 <= a < b < es0.len() ==> #[trigger] crate::cache::entry_lt(es0[a], es0[b])
                &&& forall|a: int, b: int|
                    0 <= a < b < es0.len() ==> (#[trigger] es0[a]).1 != (#[trigger] es0[b]).1
                &&& forall|a: int| 0 <= a < es0.len() ==> (#[trigger] es0[a]).0.valid()
                &&& v@ == es0.take(i as int)
            },
        decreases n - i,
    {
        proof {
            if hyp {
                vstd::bytes::lemma_auto_spec_u64_to_from_le_bytes();
                lemma_enc_entries_at(es0, i as int);
                lemma_sub_compose(
                    bytes@,
                    pos + 8,
                    pos + 8 + 32 * es0.len(),
                    32 * i,
                    32 * (i + 1),
                );
                let eb = spec_enc_entry(es0[i as int]);
                assert(bytes@.subrange(p as int, p + 32) == eb);
                lemma_split_at(
                    eb,
                    spec_enc_i64(es0[i as int].1.0) + spec_enc_i64(es0[i as int].1.1),
                    spec_enc_risk(es0[i as int].0),
                );
                lemma_split_at(
                    spec_enc_i64(es0[i as int].1.0) + spec_enc_i64(es0[i as int].1.1),
                    spec_enc_i64(es0[i as int].1.0),
                    spec_enc_i64(es0[i as int].1.1),
                );
                lemma_split_at(
                    spec_enc_risk(es0[i as int].0),
                    spec_enc_u64(es0[i as int].0.num),
                    spec_enc_u64(es0[i as int].0.den),
                );
                lemma_sub_compose(bytes@, p as int, p + 32, 0, 8);
                lemma_sub_compose(bytes@, p as int, p + 32, 0, 16);
                lemma_sub_compose(bytes@, p as int, p + 32, 8, 16);
                lemma_sub_compose(bytes@, p as int, p + 32, 16, 32);
                assert(bytes@.subrange(p + 16, p + 32) == spec_enc_risk(es0[i as int].0));
                lemma_sub_compose(bytes@, p + 16, p + 32, 0, 8);
                lemma_sub_compose(bytes@, p + 16, p + 32, 8, 16);
                assert(bytes@.subrange(p as int, p + 8) == spec_enc_i64(es0[i as int].1.0));
                assert(bytes@.subrange(p + 8, p + 16) == spec_enc_i64(es0[i as int].1.1));
                assert(bytes@.subrange(p + 16, p + 24) == spec_enc_u64(es0[i as int].0.num));
                assert(bytes@.subrange(p + 24, p + 32) == spec_enc_u64(es0[i as int].0.den));
            }
        }
        let (x, q0) = match read_i64(bytes, p) {
            Some(w) => w,
            None => {
                proof {
                    if hyp {
                        assert(false);
                    }
                }
                return None;
            },
        };
        let (y, q1) = match read_i64(bytes, q0) {
            Some(w) => w,
            None => {
                proof {
                    if hyp {
                        assert(false);
                    }
                }
                return None;
            },
        };
        let (num, q2) = match read_u64(bytes, q1) {
            Some(w) => w,
            None => {
                proof {
                    if hyp {
                        assert(false);
                    }
                }
                return None;
            },
        };
        let (den, q3) = match read_u64(bytes, q2) {
            Some(w) => w,
            None => {
                proof {
                    if hyp {
                        assert(false);
                    }
                }
                return None;
            },
        };
        proof {
            if hyp {
                let w = es0[i as int];
                assert(num == w.0.num && den == w.0.den);
                assert forall|vv: i64| #[trigger] ((vv as u64) as i64) == vv by {
                    assert((vv as u64) as i64 == vv) by (bit_vector);
                }
                assert(x == w.1.0 && y == w.1.1);
            }
        }
        let risk = match Risk::new(num, den) {
            Some(r2) => r2,
            None => {
                proof {
                    if hyp {
                        assert(es0[i as int].0.valid());
                        assert(false);
                    }
                }
                return None;
            },
        };
        let entry = (risk, (x, y));
        proof {
            if hyp {
                assert(entry == es0[i as int]);
            }
        }
        // entries must arrive in strict cache order
        if i > 0 {
            let prev = v[i - 1];
            if !crate::cache::entry_lt_exec(&prev, &entry) {
                proof {
                    if hyp {
                        assert(v@[i - 1] == es0.take(i as int)[i - 1]);
                        assert(crate::cache::entry_lt(es0[i - 1], es0[i as int]));
                        assert(false);
                    }
                }
                return None;
            }
        }
        // and no coordinate may be mapped twice
        let cl = v.len();
        let mut d: usize = 0;
        let mut dup = false;
        while d < cl
            invariant
                cl == v@.len(),
                d <= cl,
                !dup ==> forall|a: int| 0 <= a < d ==> (#[trigger] v@[a]).1 != entry.1,
                dup ==> exists|a: int| 0 <= a < d && (#[trigger] v@[a]).1 == entry.1,
                entry == (risk, (x, y)),
            decreases cl - d,
        {
            let e = v[d];
            if e.1.0 == x && e.1.1 == y {
                proof {
                    assert(v@[d as int].1 == entry.1);
                }
                dup = true;
            }
            d += 1;
        }
        if dup {
            proof {
                if hyp {
                    let a = choose|a: int| 0 <= a < cl && (#[trigger] v@[a]).1 == entry.1;
                    assert(v@[a] == es0.take(i as int)[a]);
                    assert(es0[a].1 == es0[i as int].1);
                    assert(false);
                }
            }
            return None;
        }
        let ghost before = v@;
        v.push(entry);
        proof {
            assert forall|a: int, b: int|
                0 <= a < b < v@.len() implies (#[trigger] v@[a]).1 != (#[trigger] v@[b]).1 by {
                if b < v@.len() - 1 {
                    assert(v@[a] == before[a] && v@[b] == before[b]);
                } else {
                    assert(v@[b] == entry);
                    if a < v@.len() - 1 {
                        assert(v@[a] == before[a]);
                    }
                }
            }
            assert forall|a: int|
                0 <= a && a + 1 < v@.len() implies crate::cache::entry_lt(
                #[trigger] v@[a],
                v@[a + 1],
            ) by {
                assert(v@ == before.push(entry));
                if a + 1 < before.len() {
                    assert(v@[a] == before[a]);
                    assert(v@[a + 1] == before[a + 1]);
                    assert(crate::cache::entry_lt(before[a], before[a + 1]));
                } else {
                    assert(a + 1 == before.len());
                    assert(v@[a + 1] == entry);
                    assert(v@[a] == before[a]);
                    assert(crate::cache::entry_lt(before[a], entry));
                }
            }
            if hyp {
                assert(v@ =~= es0.take(i + 1)) by {
                    assert forall|a: int| 0 <= a < i + 1 implies v@[a] == es0.take(i + 1)[a] by {
                        if a < i {
                            assert(v@[a] == before[a]);
                            assert(before[a] == es0.take(i as int)[a]);
                        }
                    }
                }
            }
        }
        p = q3;
        i += 1;
    }
    let cache = RiskCache { entries: v };
    proof {
        assert forall|a: int, b: int|
            0 <= a < b < cache.entries@.len() implies #[trigger] crate::cache::entry_lt(
            cache.entries@[a],
            cache.entries@[b],
        ) by {
            crate::cache::lemma_sorted_pairwise(cache.entries@, a, b);
        }
        if hyp {
            assert(cache.entries@ == es0) by {
                assert(es0.take(n as int) =~= es0);
            }
        }
    }
    Some((cache, p))
}


/// Splitting a concatenation whose right parts have equal length.
pub(crate) proof fn lemma_concat_parts_right(a1: Seq<u8>, b1: Seq<u8>, a2: Seq<u8>, b2: Seq<u8>)
    requires
        a1 + b1 == a2 + b2,
        b1.len() == b2.len(),
    ensures
        a1 == a2,
        b1 == b2,
{
    assert((a1 + b1).len() == a1.len() + b1.len());
    assert((a2 + b2).len() == a2.len() + b2.len());
    assert(a1.len() == a2.len());
    assert(a1 =~= a2) by {
        assert forall|i: int| 0 <= i < a1.len() implies a1[i] == a2[i] by {
            assert((a1 + b1)[i] == a1[i]);
            assert((a2 + b2)[i] == a2[i]);
        }
    }
    assert(b1 =~= b2) by {
        assert forall|i: int| 0 <= i < b1.len() implies b1[i] == b2[i] by {
            assert((a1 + b1)[a1.len() + i] == b1[i]);
            assert((a2 + b2)[a2.len() + i] == b2[i]);
        }
    }
}

/// Little-endian bytes pin the 64-bit value down.
pub(crate) proof fn lemma_enc_u64_inj(x: u64, y: u64)
    requires
        spec_enc_u64(x) == spec_enc_u64(y),
    ensures
        x == y,
{
    vstd::bytes::lemma_auto_spec_u64_to_from_le_bytes();
}

pub(crate) proof fn lemma_enc_i64_inj(x: i64, y: i64)
    requires
        spec_enc_i64(x) == spec_enc_i64(y),
    ensures
        x == y,
{
    lemma_enc_u64_inj(x as u64, y as u64);
    assert(x as u64 == y as u64 ==> x == y) by (bit_vector);
}

pub(crate) proof fn lemma_enc_risk_inj(x: Risk, y: Risk)
    requires
        spec_enc_risk(x) == spec_enc_risk(y),
    ensures
        x == y,
{
    vstd::bytes::lemma_auto_spec_u64_to_from_le_bytes();
    lemma_concat_parts_right(
        spec_enc_u64(x.num),
        spec_enc_u64(x.den),
        spec_enc_u64(y.num),
        spec_enc_u64(y.den),
    );
    lemma_enc_u64_inj(x.num, y.num);
    lemma_enc_u64_inj(x.den, y.den);
}

/// The chunk section is 4112 bytes per chunk.
pub(crate) proof fn lemma_enc_chunks_len(s: Seq<(Coord, Vec<u8>)>)
    requires
        forall|i: int| 0 <= i < s.len() ==> (#[trigger] s[i]).1@.len() == 4096,
    ensures
        spec_enc_chunks(s).len() == 4112 * s.len(),
    decreases s.len(),
{
    vstd::bytes::lemma_auto_spec_u64_to_from_le_bytes();
    if s.len() > 0 {
        assert(forall|i: int|
            0 <= i < s.drop_last().len() ==> (#[trigger] s.drop_last()[i]).1@.len() == 4096);
        lemma_enc_chunks_len(s.drop_last());
        assert(s.last().1@.len() == 4096);
    }
}

/// The cache section is 32 bytes per entry.
pub(crate) proof fn lemma_enc_entries_len(s: Seq<(Risk, Coord)>)
    ensures
        spec_enc_entries(s).len() == 32 * s.len(),
    decreases s.len(),
{
    vstd::bytes::lemma_auto_spec_u64_to_from_le_bytes();
    if s.len() > 0 {
        lemma_enc_entries_len(s.drop_last());
    }
}

/// Equal chunk sections with equally many chunks carry the same chunks.
pub(crate) proof fn lemma_enc_chunks_inj(s1: Seq<(Coord, Vec<u8>)>, s2: Seq<(Coord, Vec<u8>)>)
    requires
        s1.len() == s2.len(),
        forall|i: int| 0 <= i < s1.len() ==> (#[trigger] s1[i]).1@.len() == 4096,
        forall|i: int| 0 <= i < s2.len() ==> (#[trigger] s2[i]).1@.len() == 4096,
        spec_enc_chunks(s1) == spec_enc_chunks(s2),
    ensures
        forall|i: int|
            0 <= i < s1.len() ==> (#[trigger] s1[i]).0 == s2[i].0 && s1[i].1@ == s2[i].1@,
    decreases s1.len(),
{
    vstd::bytes::lemma_auto_spec_u64_to_from_le_bytes();
    if s1.len() > 0 {
        let l1 = s1.last();
        let l2 = s2.last();
        assert(spec_enc_chunk(l1).len() == spec_enc_chunk(l2).len());
        lemma_concat_parts_right(
            spec_enc_chunks(s1.drop_last()),
            spec_enc_chunk(l1),
            spec_enc_chunks(s2.drop_last()),
            spec_enc_chunk(l2),
        );
        lemma_concat_parts_right(
            spec_enc_i64(l1.0.0) + spec_enc_i64(l1.0.1),
            l1.1@,
            spec_enc_i64(l2.0.0) + spec_enc_i64(l2.0.1),
            l2.1@,
        );
        lemma_concat_parts_right(
            spec_enc_i64(l1.0.0),
            spec_enc_i64(l1.0.1),
            spec_enc_i64(l2.0.0),
            spec_enc_i64(l2.0.1),
        );
        lemma_enc_i64_inj(l1.0.0, l2.0.0);
        lemma_enc_i64_inj(l1.0.1, l2.0.1);
        assert(forall|i: int|
            0 <= i < s1.drop_last().len() ==> (#[trigger] s1.drop_last()[i]).1@.len() == 4096);
        assert(forall|i: int|
            0 <= i < s2.drop_last().len() ==> (#[trigger] s2.drop_last()[i]).1@.len() == 4096);
        lemma_enc_chunks_inj(s1.drop_last(), s2.drop_last());
        assert forall|i: int|
            0 <= i < s1.len() implies (#[trigger] s1[i]).0 == s2[i].0 && s1[i].1@ == s2[i].1@ by {
            if i < s1.len() - 1 {
                assert(s1.drop_last()[i] == s1[i]);
                assert(s2.drop_last()[i] == s2[i]);
            }
        }
    }
}

/// Equal cache sections with equally many entries carry the same entries.
pub(crate) proof fn lemma_enc_entries_inj(s1: Seq<(Risk, Coord)>, s2: Seq<(Risk, Coord)>)
    requires
        s1.len() == s2.len(),
        spec_enc_entries(s1) == spec_enc_entries(s2),
    ensures
        s1 == s2,
    decreases s1.len(),
{
    vstd::bytes::lemma_auto_spec_u64_to_from_le_bytes();
    if s1.len() == 0 {
        assert(s1 =~= s2);
    } else {
        let l1 = s1.last();
        let l2 = s2.last();
        assert(spec_enc_entry(l1).len() == spec_enc_entry(l2).len());
        lemma_concat_parts_right(
            spec_enc_entries(s1.drop_last()),
            spec_enc_entry(l1),
            spec_enc_entries(s2.drop_last()),
            spec_enc_entry(l2),
        );
        lemma_concat_parts_right(
            spec_enc_i64(l1.1.0) + spec_enc_i64(l1.1.1),
            spec_enc_risk(l1.0),
            spec_enc_i64(l2.1.0) + spec_enc_i64(l2.1.1),
            spec_enc_risk(l2.0),
        );
        lemma_concat_parts_right(
            spec_enc_i64(l1.1.0),
            spec_enc_i64(l1.1.1),
            spec_enc_i64(l2.1.0),
            spec_enc_i64(l2.1.1),
        );
        lemma_enc_i64_inj(l1.1.0, l2.1.0);
        lemma_enc_i64_inj(l1.1.1, l2.1.1);
        lemma_enc_risk_inj(l1.0, l2.0);
        lemma_enc_entries_inj(s1.drop_last(), s2.drop_last());
        assert(s1 =~= s2) by {
            assert forall|i: int| 0 <= i < s1.len() implies s1[i] == s2[i] by {
                if i < s1.len() - 1 {
                    assert(s1.drop_last()[i] == s1[i]);
                    assert(s2.drop_last()[i] == s2[i]);
                }
            }
        }
    }
}

/// The chunk count sits in bytes 3 to 10 of the stream.
proof fn lemma_count_bytes(f: Field)
    requires
        f.wf(),
    ensures
        forall|i: int|
            0 <= i < 8 ==> spec_encode(f)[3 + i] == #[trigger] spec_enc_u64(
                f.chunks@.len() as u64,
            )[i],
        forall|i: int|
            0 <= i < 8 ==> spec_encode(f)[11 + 4112 * f.chunks@.len() + i]
                == #[trigger] spec_enc_u64(f.risk_cache.entries@.len() as u64)[i],
        spec_encode(f).len() == 53 + 4112 * f.chunks@.len() + 32 * f.risk_cache.entries@.len()
            + spec_enc_size(f.size).len(),
        spec_enc_size(f.size).len() == (if f.size is Some {
            17int
        } else {
            1
        }),
{
    vstd::bytes::lemma_auto_spec_u64_to_from_le_bytes();
    lemma_enc_chunks_len(f.chunks@);
    lemma_enc_entries_len(f.risk_cache.entries@);
    let m = spec_magic();
    let n1 = spec_enc_u64(f.chunks@.len() as u64);
    let ch = spec_enc_chunks(f.chunks@);
    let n2 = spec_enc_u64(f.risk_cache.entries@.len() as u64);
    let a1 = m + n1;
    let a2 = a1 + ch;
    let a3 = a2 + n2;
    assert forall|i: int| 0 <= i < 8 implies spec_encode(f)[3 + i] == n1[i] by {
        assert(a1[3 + i] == n1[i]);
        assert(a2[3 + i] == a1[3 + i]);
        assert(a3[3 + i] == a2[3 + i]);
    }
    assert forall|i: int|
        0 <= i < 8 implies spec_encode(f)[11 + 4112 * f.chunks@.len() + i] == n2[i] by {
        assert(a3[a2.len() + i] == n2[i]);
        assert(a2.len() == 11 + 4112 * f.chunks@.len());
    }
}

/// One stream denotes one state: two well-formed states with the same
/// current-layout encoding agree on every observable part. Together with
/// the guarantee of `decode` — an accepted stream is exactly the encoding
/// of its result — whatever `load` accepts of a saved state is that state.
pub proof fn lemma_stream_determines_state(f: Field, g: Field)
    requires
        f.wf(),
        g.wf(),
        spec_encode(f) == spec_encode(g),
    ensures
        f.chunks@.len() == g.chunks@.len(),
        forall|i: int|
            0 <= i < f.chunks@.len() ==> (#[trigger] f.chunks@[i]).0 == g.chunks@[i].0
                && f.chunks@[i].1@ == g.chunks@[i].1@,
        f.risk_cache.entries@ == g.risk_cache.entries@,
        f.density == g.density,
        f.judge == g.judge,
        f.solvable == g.solvable,
        f.size == g.size,
        f.cells_revealed == g.cells_revealed,
        f.time_elapsed_ms == g.time_elapsed_ms,
{
    vstd::bytes::lemma_auto_spec_u64_to_from_le_bytes();
    lemma_count_bytes(f);
    lemma_count_bytes(g);
    lemma_enc_chunks_len(f.chunks@);
    lemma_enc_chunks_len(g.chunks@);
    lemma_enc_entries_len(f.risk_cache.entries@);
    lemma_enc_entries_len(g.risk_cache.entries@);
    vstd::std_specs::vec::axiom_spec_len(&f.chunks);
    vstd::std_specs::vec::axiom_spec_len(&g.chunks);
    vstd::std_specs::vec::axiom_spec_len(&f.risk_cache.entries);
    vstd::std_specs::vec::axiom_spec_len(&g.risk_cache.entries);
    // the two chunk counts occupy the same bytes
    assert forall|i: int|
        0 <= i < 8 implies spec_enc_u64(f.chunks@.len() as u64)[i] == #[trigger] spec_enc_u64(
        g.chunks@.len() as u64,
    )[i] by {
        assert(spec_encode(f)[3 + i] == spec_enc_u64(f.chunks@.len() as u64)[i]);
        assert(spec_encode(g)[3 + i] == spec_enc_u64(g.chunks@.len() as u64)[i]);
    }
    assert(spec_enc_u64(f.chunks@.len() as u64) =~= spec_enc_u64(g.chunks@.len() as u64));
    lemma_enc_u64_inj(f.chunks@.len() as u64, g.chunks@.len() as u64);
    assert(f.chunks@.len() == g.chunks@.len());
    // so do the cache counts
    assert forall|i: int|
        0 <= i < 8 implies spec_enc_u64(f.risk_cache.entries@.len() as u64)[i]
        == #[trigger] spec_enc_u64(g.risk_cache.entries@.len() as u64)[i] by {
        assert(spec_encode(f)[11 + 4112 * f.chunks@.len() + i] == spec_enc_u64(
            f.risk_cache.entries@.len() as u64,
        )[i]);
        assert(spec_encode(g)[11 + 4112 * g.chunks@.len() + i] == spec_enc_u64(
            g.risk_cache.entries@.len() as u64,
        )[i]);
    }
    assert(spec_enc_u64(f.risk_cache.entries@.len() as u64) =~= spec_enc_u64(
        g.risk_cache.entries@.len() as u64,
    ));
    lemma_enc_u64_inj(
        f.risk_cache.entries@.len() as u64,
        g.risk_cache.entries@.len() as u64,
    );
    assert(f.risk_cache.entries@.len() == g.risk_cache.entries@.len());
    // with both counts fixed, the finite-size sections have equal length
    assert(spec_enc_size(f.size).len() == spec_enc_size(g.size).len());
    // peel the stream from the right, one section at a time
    let n1f = spec_enc_u64(f.chunks@.len() as u64);
    let n1g = spec_enc_u64(g.chunks@.len() as u64);
    let chf = spec_enc_chunks(f.chunks@);
    let chg = spec_enc_chunks(g.chunks@);
    let n2f = spec_enc_u64(f.risk_cache.entries@.len() as u64);
    let n2g = spec_enc_u64(g.risk_cache.entries@.len() as u64);
    let enf = spec_enc_entries(f.risk_cache.entries@);
    let eng = spec_enc_entries(g.risk_cache.entries@);
    let def_ = spec_enc_risk(f.density);
    let deg = spec_enc_risk(g.density);
    let juf = seq![spec_judge_tag(f.judge)];
    let jug = seq![spec_judge_tag(g.judge)];
    let sof = seq![if f.solvable { 1u8 } else { 0u8 }];
    let sog = seq![if g.solvable { 1u8 } else { 0u8 }];
    let sif = spec_enc_size(f.size);
    let sig = spec_enc_size(g.size);
    let cef = spec_enc_u64(f.cells_revealed as u64);
    let ceg = spec_enc_u64(g.cells_revealed as u64);
    let tif = spec_enc_u64(f.time_elapsed_ms);
    let tig = spec_enc_u64(g.time_elapsed_ms);
    let pf1 = spec_magic() + n1f;
    let pg1 = spec_magic() + n1g;
    let pf2 = pf1 + chf;
    let pg2 = pg1 + chg;
    let pf3 = pf2 + n2f;
    let pg3 = pg2 + n2g;
    let pf4 = pf3 + enf;
    let pg4 = pg3 + eng;
    let pf5 = pf4 + def_;
    let pg5 = pg4 + deg;
    let pf6 = pf5 + juf;
    let pg6 = pg5 + jug;
    let pf7 = pf6 + sof;
    let pg7 = pg6 + sog;
    let pf8 = pf7 + sif;
    let pg8 = pg7 + sig;
    let pf9 = pf8 + cef;
    let pg9 = pg8 + ceg;
    assert(spec_encode(f) == pf9 + tif);
    assert(spec_encode(g) == pg9 + tig);
    lemma_concat_parts_right(pf9, tif, pg9, tig);
    lemma_enc_u64_inj(f.time_elapsed_ms, g.time_elapsed_ms);
    lemma_concat_parts_right(pf8, cef, pg8, ceg);
    lemma_enc_u64_inj(f.cells_revealed as u64, g.cells_revealed as u64);
    assert(f.cells_revealed == g.cells_revealed);
    lemma_concat_parts_right(pf7, sif, pg7, sig);
    // equal size sections mean the same optional rectangle
    assert(f.size == g.size) by {
        match (f.size, g.size) {
            (Option::None, Option::None) => {},
            (Option::Some((w1, h1)), Option::Some((w2, h2))) => {
                lemma_concat_parts_right(
                    seq![1u8] + spec_enc_u64(w1 as u64),
                    spec_enc_u64(h1 as u64),
                    seq![1u8] + spec_enc_u64(w2 as u64),
                    spec_enc_u64(h2 as u64),
                );
                lemma_concat_parts_right(
                    seq![1u8],
                    spec_enc_u64(w1 as u64),
                    seq![1u8],
                    spec_enc_u64(w2 as u64),
                );
                lemma_enc_u64_inj(w1 as u64, w2 as u64);
                lemma_enc_u64_inj(h1 as u64, h2 as u64);
            },
            (Option::None, Option::Some(_)) => {
                assert(sif.len() == 1);
                assert(sig.len() == 17);
            },
            (Option::Some(_), Option::None) => {
                assert(sif.len() == 17);
                assert(sig.len() == 1);
            },
        }
    }
    lemma_concat_parts_right(pf6, sof, pg6, sog);
    assert(sof[0] == sog[0]);
    assert(f.solvable == g.solvable);
    lemma_concat_parts_right(pf5, juf, pg5, jug);
    assert(juf[0] == jug[0]);
    assert(f.judge == g.judge);
    lemma_concat_parts_right(pf4, def_, pg4, deg);
    lemma_enc_risk_inj(f.density, g.density);
    lemma_concat_parts_right(pf3, enf, pg3, eng);
    lemma_enc_entries_inj(f.risk_cache.entries@, g.risk_cache.entries@);
    lemma_concat_parts_right(pf2, n2f, pg2, n2g);
    lemma_concat_parts_right(pf1, chf, pg1, chg);
    lemma_enc_chunks_inj(f.chunks@, g.chunks@);
}

} // verus!
