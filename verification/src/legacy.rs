use vstd::prelude::*;
use crate::cache::RiskCache;
use crate::cell::canonical_byte;
use crate::codec::{
    bytes_eq, put_i64, put_u64, read_i64, read_u64, read_u8, spec_enc_chunks, spec_enc_i64,
    spec_enc_risk, spec_enc_u64, DecodeError,
};
use crate::coords::Coord;
use crate::risk::Risk;

verus! {

/// The policy tags of the older stream layout; `Kaboom` predates the split
/// into its global and local forms.
#[derive(Clone, Copy, Debug, PartialEq, Eq, Structural)]
pub enum Judge {
    Random,
    Strict,
    Kind,
    Local,
    Global,
    Kaboom,
}

/// A cell byte as the older layout stored it; the packing never changed.
#[derive(Clone, Copy, Debug, PartialEq, Eq, Structural)]
pub struct CellData {
    pub data: u8,
}

/// A state in the older layout: no finite size, no reveal counter, no
/// elapsed time, and a plain coordinate-to-probability map.
#[derive(Clone, Debug, PartialEq)]
pub struct Field {
    pub chunks: Vec<(Coord, Vec<u8>)>,
    pub risk_cache: Vec<(Coord, Risk)>,
    pub density: Risk,
    pub judge: Judge,
    pub solvable: bool,
}

/// Revealed cells in one chunk's bytes.
pub open spec fn spec_rev_in_chunk(s: Seq<u8>) -> int
    decreases s.len(),
{
    if s.len() == 0 {
        0
    } else {
        spec_rev_in_chunk(s.drop_last()) + if s.last() % 2 == 1 {
            1int
        } else {
            0
        }
    }
}

/// Revealed cells over a whole chunk list.
pub open spec fn spec_revealed_total(cs: Seq<(Coord, Vec<u8>)>) -> int
    decreases cs.len(),
{
    if cs.len() == 0 {
        0
    } else {
        spec_revealed_total(cs.drop_last()) + spec_rev_in_chunk(cs.last().1@)
    }
}

pub proof fn lemma_rev_chunk_bounds(s: Seq<u8>)
    ensures
        0 <= spec_rev_in_chunk(s) <= s.len(),
    decreases s.len(),
{
    if s.len() > 0 {
        lemma_rev_chunk_bounds(s.drop_last());
    }
}

pub proof fn lemma_rev_total_bounds(cs: Seq<(Coord, Vec<u8>)>)
    requires
        forall|i: int| 0 <= i < cs.len() ==> (#[trigger] cs[i]).1@.len() == 4096,
    ensures
        0 <= spec_revealed_total(cs) <= 4096 * cs.len(),
    decreases cs.len(),
{
    if cs.len() > 0 {
        assert(forall|i: int|
            0 <= i < cs.drop_last().len() ==> (#[trigger] cs.drop_last()[i]).1@.len() == 4096);
        lemma_rev_total_bounds(cs.drop_last());
        lemma_rev_chunk_bounds(cs.last().1@);
    }
}

/// A prefix counts no more than the whole list.
pub proof fn lemma_rev_total_mono(cs: Seq<(Coord, Vec<u8>)>, j: int)
    requires
        0 <= j <= cs.len(),
    ensures
        spec_revealed_total(cs.take(j)) <= spec_revealed_total(cs),
    decreases cs.len() - j,
{
    if j == cs.len() {
        assert(cs.take(j) =~= cs);
    } else {
        lemma_rev_total_mono(cs, j + 1);
        assert(cs.take(j + 1).drop_last() =~= cs.take(j));
        assert(cs.take(j + 1).last() == cs[j]);
        lemma_rev_chunk_bounds(cs[j].1@);
    }
}

/// The older stream layout for a legacy state.
pub open spec fn spec_enc_pairs(s: Seq<(Coord, Risk)>) -> Seq<u8>
    decreases s.len(),
{
    if s.len() == 0 {
        Seq::empty()
    } else {
        spec_enc_pairs(s.drop_last()) + spec_enc_i64(s.last().0.0) + spec_enc_i64(s.last().0.1)
            + spec_enc_risk(s.last().1)
    }
}

pub open spec fn spec_legacy_tag(j: Judge) -> u8 {
    match j {
        Judge::Random => 0u8,
        Judge::Strict => 1u8,
        Judge::Kind => 2u8,
        Judge::Local => 3u8,
        Judge::Global => 4u8,
        Judge::Kaboom => 5u8,
    }
}

pub open spec fn spec_encode_legacy(f: Field) -> Seq<u8> {
    seq![0x4du8, 0x46u8, 0x01u8] + spec_enc_u64(f.chunks@.len() as u64) + spec_enc_chunks(
        f.chunks@,
    ) + spec_enc_u64(f.risk_cache@.len() as u64) + spec_enc_pairs(f.risk_cache@) + spec_enc_risk(
        f.density,
    ) + seq![spec_legacy_tag(f.judge)] + seq![
        if f.solvable {
            1u8
        } else {
            0u8
        },
    ]
}

/// How an old policy tag reads today.
pub open spec fn spec_upgrade_judge(j: Judge) -> crate::judges::Judge {
    match j {
        Judge::Random => crate::judges::Judge::Random,
        Judge::Strict => crate::judges::Judge::Strict,
        Judge::Kind => crate::judges::Judge::Kind,
        Judge::Local => crate::judges::Judge::Local,
        Judge::Global => crate::judges::Judge::Global,
        Judge::Kaboom => crate::judges::Judge::KaboomGlobal,
    }
}


/// The map section is 32 bytes per pair.
proof fn lemma_enc_pairs_len(s: Seq<(Coord, Risk)>)
    ensures
        spec_enc_pairs(s).len() == 32 * s.len(),
    decreases s.len(),
{
    vstd::bytes::lemma_auto_spec_u64_to_from_le_bytes();
    if s.len() > 0 {
        lemma_enc_pairs_len(s.drop_last());
    }
}

/// Equal map sections with equally many pairs carry the same pairs.
proof fn lemma_enc_pairs_inj(s1: Seq<(Coord, Risk)>, s2: Seq<(Coord, Risk)>)
    requires
        s1.len() == s2.len(),
        spec_enc_pairs(s1) == spec_enc_pairs(s2),
    ensures
        s1 == s2,
    decreases s1.len(),
{
    vstd::bytes::lemma_auto_spec_u64_to_from_le_bytes();
    if s1.len() == 0 {
        assert(s1 =~= s2);
    } else {
        let l1 = s1.last();
        let l2 = s2.last();
        crate::codec::lemma_concat_parts_right(
            spec_enc_pairs(s1.drop_last()) + spec_enc_i64(l1.0.0) + spec_enc_i64(l1.0.1),
            spec_enc_risk(l1.1),
            spec_enc_pairs(s2.drop_last()) + spec_enc_i64(l2.0.0) + spec_enc_i64(l2.0.1),
            spec_enc_risk(l2.1),
        );
        crate::codec::lemma_concat_parts_right(
            spec_enc_pairs(s1.drop_last()) + spec_enc_i64(l1.0.0),
            spec_enc_i64(l1.0.1),
            spec_enc_pairs(s2.drop_last()) + spec_enc_i64(l2.0.0),
            spec_enc_i64(l2.0.1),
        );
        crate::codec::lemma_concat_parts_right(
            spec_enc_pairs(s1.drop_last()),
            spec_enc_i64(l1.0.0),
            spec_enc_pairs(s2.drop_last()),
            spec_enc_i64(l2.0.0),
        );
        crate::codec::lemma_enc_i64_inj(l1.0.0, l2.0.0);
        crate::codec::lemma_enc_i64_inj(l1.0.1, l2.0.1);
        crate::codec::lemma_enc_risk_inj(l1.1, l2.1);
        lemma_enc_pairs_inj(s1.drop_last(), s2.drop_last());
        assert(s1 =~= s2) by {
            assert forall|i: int| 0 <= i < s1.len() implies s1[i] == s2[i] by {
                if i < s1.len() - 1 {
                    assert(s1.drop_last()[i] == s1[i]);
                    assert(s2.drop_last()[i] == s2[i]);
                }
            }
        }
    }
}

/// The two counts of an older-layout stream sit at fixed places.
proof fn lemma_legacy_count_bytes(f: Field)
    requires
        f.wf(),
    ensures
        forall|i: int|
            0 <= i < 8 ==> spec_encode_legacy(f)[3 + i] == #[trigger] spec_enc_u64(
                f.chunks@.len() as u64,
            )[i],
        forall|i: int|
            0 <= i < 8 ==> spec_encode_legacy(f)[11 + 4112 * f.chunks@.len() + i]
                == #[trigger] spec_enc_u64(f.risk_cache@.len() as u64)[i],
        spec_encode_legacy(f).len() == 37 + 4112 * f.chunks@.len() + 32 * f.risk_cache@.len(),
{
    vstd::bytes::lemma_auto_spec_u64_to_from_le_bytes();
    crate::codec::lemma_enc_chunks_len(f.chunks@);
    lemma_enc_pairs_len(f.risk_cache@);
    let m = seq![0x4du8, 0x46u8, 0x01u8];
    let n1 = spec_enc_u64(f.chunks@.len() as u64);
    let ch = spec_enc_chunks(f.chunks@);
    let n2 = spec_enc_u64(f.risk_cache@.len() as u64);
    let a1 = m + n1;
    let a2 = a1 + ch;
    let a3 = a2 + n2;
    assert forall|i: int| 0 <= i < 8 implies spec_encode_legacy(f)[3 + i] == n1[i] by {
        assert(a1[3 + i] == n1[i]);
        assert(a2[3 + i] == a1[3 + i]);
        assert(a3[3 + i] == a2[3 + i]);
    }
    assert forall|i: int|
        0 <= i < 8 implies spec_encode_legacy(f)[11 + 4112 * f.chunks@.len() + i] == n2[i] by {
        assert(a3[a2.len() + i] == n2[i]);
        assert(a2.len() == 11 + 4112 * f.chunks@.len());
    }
}

/// One older-layout stream denotes one legacy state: two well-formed legacy
/// states with the same encoding agree on every observable part, so the
/// state `load` hands back is the one the payload denotes.
pub proof fn lemma_legacy_stream_determines_state(f: Field, g: Field)
    requires
        f.wf(),
        g.wf(),
        spec_encode_legacy(f) == spec_encode_legacy(g),
    ensures
        f.chunks@.len() == g.chunks@.len(),
        forall|i: int|
            0 <= i < f.chunks@.len() ==> (#[trigger] f.chunks@[i]).0 == g.chunks@[i].0
                && f.chunks@[i].1@ == g.chunks@[i].1@,
        f.risk_cache@ == g.risk_cache@,
        f.density == g.density,
        f.judge == g.judge,
        f.solvable == g.solvable,
{
    vstd::bytes::lemma_auto_spec_u64_to_from_le_bytes();
    lemma_legacy_count_bytes(f);
    lemma_legacy_count_bytes(g);
    crate::codec::lemma_enc_chunks_len(f.chunks@);
    crate::codec::lemma_enc_chunks_len(g.chunks@);
    lemma_enc_pairs_len(f.risk_cache@);
    lemma_enc_pairs_len(g.risk_cache@);
    vstd::std_specs::vec::axiom_spec_len(&f.chunks);
    vstd::std_specs::vec::axiom_spec_len(&g.chunks);
    vstd::std_specs::vec::axiom_spec_len(&f.risk_cache);
    vstd::std_specs::vec::axiom_spec_len(&g.risk_cache);
    assert forall|i: int|
        0 <= i < 8 implies spec_enc_u64(f.chunks@.len() as u64)[i] == #[trigger] spec_enc_u64(
        g.chunks@.len() as u64,
    )[i] by {
        assert(spec_encode_legacy(f)[3 + i] == spec_enc_u64(f.chunks@.len() as u64)[i]);
        assert(spec_encode_legacy(g)[3 + i] == spec_enc_u64(g.chunks@.len() as u64)[i]);
    }
    assert(spec_enc_u64(f.chunks@.len() as u64) =~= spec_enc_u64(g.chunks@.len() as u64));
    crate::codec::lemma_enc_u64_inj(f.chunks@.len() as u64, g.chunks@.len() as u64);
    assert(f.chunks@.len() == g.chunks@.len());
    assert forall|i: int|
        0 <= i < 8 implies spec_enc_u64(f.risk_cache@.len() as u64)[i] == #[trigger] spec_enc_u64(
        g.risk_cache@.len() as u64,
    )[i] by {
        assert(spec_encode_legacy(f)[11 + 4112 * f.chunks@.len() + i] == spec_enc_u64(
            f.risk_cache@.len() as u64,
        )[i]);
        assert(spec_encode_legacy(g)[11 + 4112 * g.chunks@.len() + i] == spec_enc_u64(
            g.risk_cache@.len() as u64,
        )[i]);
    }
    assert(spec_enc_u64(f.risk_cache@.len() as u64) =~= spec_enc_u64(
        g.risk_cache@.len() as u64,
    ));
    crate::codec::lemma_enc_u64_inj(f.risk_cache@.len() as u64, g.risk_cache@.len() as u64);
    assert(f.risk_cache@.len() == g.risk_cache@.len());
    let n1f = spec_enc_u64(f.chunks@.len() as u64);
    let n1g = spec_enc_u64(g.chunks@.len() as u64);
    let chf = spec_enc_chunks(f.chunks@);
    let chg = spec_enc_chunks(g.chunks@);
    let n2f = spec_enc_u64(f.risk_cache@.len() as u64);
    let n2g = spec_enc_u64(g.risk_cache@.len() as u64);
    let paf = spec_enc_pairs(f.risk_cache@);
    let pag = spec_enc_pairs(g.risk_cache@);
    let def_ = spec_enc_risk(f.density);
    let deg = spec_enc_risk(g.density);
    let juf = seq![spec_legacy_tag(f.judge)];
    let jug = seq![spec_legacy_tag(g.judge)];
    let sof = seq![if f.solvable { 1u8 } else { 0u8 }];
    let sog = seq![if g.solvable { 1u8 } else { 0u8 }];
    let m = seq![0x4du8, 0x46u8, 0x01u8];
    let pf1 = m + n1f;
    let pg1 = m + n1g;
    let pf2 = pf1 + chf;
    let pg2 = pg1 + chg;
    let pf3 = pf2 + n2f;
    let pg3 = pg2 + n2g;
    let pf4 = pf3 + paf;
    let pg4 = pg3 + pag;
    let pf5 = pf4 + def_;
    let pg5 = pg4 + deg;
    let pf6 = pf5 + juf;
    let pg6 = pg5 + jug;
    assert(spec_encode_legacy(f) == pf6 + sof);
    assert(spec_encode_legacy(g) == pg6 + sog);
    crate::codec::lemma_concat_parts_right(pf6, sof, pg6, sog);
    assert(sof[0] == sog[0]);
    assert(f.solvable == g.solvable);
    crate::codec::lemma_concat_parts_right(pf5, juf, pg5, jug);
    assert(juf[0] == jug[0]);
    assert(f.judge == g.judge);
    crate::codec::lemma_concat_parts_right(pf4, def_, pg4, deg);
    crate::codec::lemma_enc_risk_inj(f.density, g.density);
    crate::codec::lemma_concat_parts_right(pf3, paf, pg3, pag);
    lemma_enc_pairs_inj(f.risk_cache@, g.risk_cache@);
    crate::codec::lemma_concat_parts_right(pf2, n2f, pg2, n2g);
    crate::codec::lemma_concat_parts_right(pf1, chf, pg1, chg);
    crate::codec::lemma_enc_chunks_inj(f.chunks@, g.chunks@);
}


/// Where pair `j` sits inside the map section.
proof fn lemma_enc_pairs_at(s: Seq<(Coord, Risk)>, j: int)
    requires
        0 <= j < s.len(),
    ensures
        spec_enc_pairs(s).subrange(32 * j, 32 * (j + 1)) == spec_enc_i64(s[j].0.0) + spec_enc_i64(
            s[j].0.1,
        ) + spec_enc_risk(s[j].1),
    decreases s.len(),
{
    vstd::bytes::lemma_auto_spec_u64_to_from_le_bytes();
    lemma_enc_pairs_len(s);
    lemma_enc_pairs_len(s.drop_last());
    let unit = spec_enc_i64(s.last().0.0) + spec_enc_i64(s.last().0.1) + spec_enc_risk(
        s.last().1,
    );
    assert(spec_enc_pairs(s) =~= spec_enc_pairs(s.drop_last()) + unit);
    crate::codec::lemma_split_at(spec_enc_pairs(s), spec_enc_pairs(s.drop_last()), unit);
    if j < s.len() - 1 {
        lemma_enc_pairs_at(s.drop_last(), j);
        assert(s.drop_last()[j] == s[j]);
        crate::codec::lemma_sub_compose(
            spec_enc_pairs(s),
            0,
            32 * s.drop_last().len() as int,
            32 * j,
            32 * (j + 1),
        );
    }
}

/// Where every section of a well-formed legacy state's stream sits.
#[verifier::rlimit(100)]
#[verifier::spinoff_prover]
proof fn lemma_legacy_layout(g: Field)
    requires
        g.wf(),
    ensures
        ({
            let e = spec_encode_legacy(g);
            let nn = g.chunks@.len() as int;
            let mm = g.risk_cache@.len() as int;
            let o1 = 11 + 4112 * nn;
            let o2 = o1 + 8 + 32 * mm;
            &&& e.len() == o2 + 18
            &&& e.subrange(0, 3) == seq![0x4du8, 0x46u8, 0x01u8]
            &&& e.subrange(3, 11) == spec_enc_u64(g.chunks@.len() as u64)
            &&& e.subrange(11, o1) == spec_enc_chunks(g.chunks@)
            &&& e.subrange(o1, o1 + 8) == spec_enc_u64(g.risk_cache@.len() as u64)
            &&& e.subrange(o1 + 8, o2) == spec_enc_pairs(g.risk_cache@)
            &&& e.subrange(o2, o2 + 8) == spec_enc_u64(g.density.num)
            &&& e.subrange(o2 + 8, o2 + 16) == spec_enc_u64(g.density.den)
            &&& e[o2 + 16] == spec_legacy_tag(g.judge)
            &&& e[o2 + 17] == (if g.solvable {
                1u8
            } else {
                0u8
            })
        }),
{
    vstd::bytes::lemma_auto_spec_u64_to_from_le_bytes();
    crate::codec::lemma_enc_chunks_len(g.chunks@);
    lemma_enc_pairs_len(g.risk_cache@);
    let e = spec_encode_legacy(g);
    let m = seq![0x4du8, 0x46u8, 0x01u8];
    let n1 = spec_enc_u64(g.chunks@.len() as u64);
    let ch = spec_enc_chunks(g.chunks@);
    let n2 = spec_enc_u64(g.risk_cache@.len() as u64);
    let pa = spec_enc_pairs(g.risk_cache@);
    let de = spec_enc_risk(g.density);
    let ju = seq![spec_legacy_tag(g.judge)];
    let so = seq![
        if g.solvable {
            1u8
        } else {
            0u8
        },
    ];
    let pf1 = m + n1;
    let pf2 = pf1 + ch;
    let pf3 = pf2 + n2;
    let pf4 = pf3 + pa;
    let pf5 = pf4 + de;
    let pf6 = pf5 + ju;
    assert(e == pf6 + so);
    crate::codec::lemma_split_at(e, pf6, so);
    crate::codec::lemma_split_at(pf6, pf5, ju);
    crate::codec::lemma_split_at(pf5, pf4, de);
    crate::codec::lemma_split_at(pf4, pf3, pa);
    crate::codec::lemma_split_at(pf3, pf2, n2);
    crate::codec::lemma_split_at(pf2, pf1, ch);
    crate::codec::lemma_split_at(pf1, m, n1);
    crate::codec::lemma_sub_compose(e, 0, pf6.len() as int, pf5.len() as int, pf6.len() as int);
    crate::codec::lemma_sub_compose(e, 0, pf6.len() as int, 0, pf5.len() as int);
    crate::codec::lemma_sub_compose(e, 0, pf5.len() as int, pf4.len() as int, pf5.len() as int);
    crate::codec::lemma_sub_compose(e, 0, pf5.len() as int, 0, pf4.len() as int);
    crate::codec::lemma_sub_compose(e, 0, pf4.len() as int, pf3.len() as int, pf4.len() as int);
    crate::codec::lemma_sub_compose(e, 0, pf4.len() as int, 0, pf3.len() as int);
    crate::codec::lemma_sub_compose(e, 0, pf3.len() as int, pf2.len() as int, pf3.len() as int);
    crate::codec::lemma_sub_compose(e, 0, pf3.len() as int, 0, pf2.len() as int);
    crate::codec::lemma_sub_compose(e, 0, pf2.len() as int, pf1.len() as int, pf2.len() as int);
    crate::codec::lemma_sub_compose(e, 0, pf2.len() as int, 0, pf1.len() as int);
    crate::codec::lemma_sub_compose(e, 0, pf1.len() as int, 3, pf1.len() as int);
    crate::codec::lemma_sub_compose(e, 0, pf1.len() as int, 0, 3);
    let o2 = 11 + 4112 * g.chunks@.len() as int + 8 + 32 * g.risk_cache@.len() as int;
    assert(e.subrange(o2 + 8, o2 + 16) == spec_enc_u64(g.density.den)) by {
        assert(e.subrange(pf4.len() as int, pf5.len() as int) == de);
        crate::codec::lemma_split_at(de, spec_enc_u64(g.density.num), spec_enc_u64(g.density.den));
        crate::codec::lemma_sub_compose(e, pf4.len() as int, pf5.len() as int, 0, 8);
        crate::codec::lemma_sub_compose(e, pf4.len() as int, pf5.len() as int, 8, 16);
    }
    assert(e.subrange(o2, o2 + 8) == spec_enc_u64(g.density.num)) by {
        assert(e.subrange(pf4.len() as int, pf5.len() as int) == de);
        crate::codec::lemma_split_at(de, spec_enc_u64(g.density.num), spec_enc_u64(g.density.den));
        crate::codec::lemma_sub_compose(e, pf4.len() as int, pf5.len() as int, 0, 8);
    }
    assert(e.subrange(o2 + 16, o2 + 17) == ju);
    assert(e[o2 + 16] == ju[0]);
    assert(e.subrange(o2 + 17, o2 + 18) == so);
    assert(e[o2 + 17] == so[0]);
}

impl CellData {
    /// Unpacks the storage byte; the bit layout matches the current one.
    pub fn to_cell(self) -> (c: crate::cell::Cell)
        ensures
            c == crate::cell::spec_to_cell(self.data),
    {
        crate::cell::CellData { data: self.data }.to_cell()
    }
}

impl Field {
    /// Chunk coordinates unique with full-sized canonical chunks, valid
    /// probabilities, and no coordinate mapped twice.
    pub open spec fn wf(self) -> bool {
        &&& forall|i: int, j: int|
            0 <= i < j < self.chunks@.len() ==> (#[trigger] self.chunks@[i]).0 != (
            #[trigger] self.chunks@[j]).0
        &&& forall|i: int|
            0 <= i < self.chunks@.len() ==> (#[trigger] self.chunks@[i]).1@.len() == 4096
        &&& forall|i: int, k: int|
            0 <= i < self.chunks@.len() && 0 <= k < 4096 ==> canonical_byte(
                #[trigger] self.chunks@[i].1@[k],
            )
        &&& forall|i: int| 0 <= i < self.risk_cache@.len() ==> (#[trigger] self.risk_cache@[i]).1.valid()
        &&& forall|i: int, j: int|
            0 <= i < j < self.risk_cache@.len() ==> (#[trigger] self.risk_cache@[i]).0 != (
            #[trigger] self.risk_cache@[j]).0
        &&& self.density.valid()
    }

    /// Serializes in the older layout.
    pub fn save(&self) -> (out: Vec<u8>)
        ensures
            out@ == spec_encode_legacy(*self),
    {
        let mut out: Vec<u8> = Vec::new();
        out.push(0x4d);
        out.push(0x46);
        out.push(0x01);
        proof {
            assert(out@ =~= seq![0x4du8, 0x46u8, 0x01u8]);
        }
        put_u64(&mut out, self.chunks.len() as u64);
        let ghost base = out@;
        let n = self.chunks.len();
        let mut i: usize = 0;
        while i < n
            invariant
                n == self.chunks@.len(),
                i <= n,
                out@ == base + spec_enc_chunks(self.chunks@.take(i as int)),
            decreases n - i,
        {
            let e = &self.chunks[i];
            put_i64(&mut out, e.0.0);
            put_i64(&mut out, e.0.1);
            crate::codec::append_bytes(&mut out, &e.1);
            proof {
                let t = self.chunks@.take(i + 1);
                assert(t.drop_last() =~= self.chunks@.take(i as int));
                assert(t.last() == self.chunks@[i as int]);
            }
            i += 1;
        }
        proof {
            assert(self.chunks@.take(n as int) =~= self.chunks@);
        }
        put_u64(&mut out, self.risk_cache.len() as u64);
        let ghost base2 = out@;
        let m = self.risk_cache.len();
        let mut j: usize = 0;
        while j < m
            invariant
                m == self.risk_cache@.len(),
                j <= m,
                out@ == base2 + spec_enc_pairs(self.risk_cache@.take(j as int)),
            decreases m - j,
        {
            let e = self.risk_cache[j];
            put_i64(&mut out, e.0.0);
            put_i64(&mut out, e.0.1);
            put_u64(&mut out, e.1.num);
            put_u64(&mut out, e.1.den);
            proof {
                let t = self.risk_cache@.take(j + 1);
                assert(t.drop_last() =~= self.risk_cache@.take(j as int));
                assert(t.last() == self.risk_cache@[j as int]);
            }
            j += 1;
        }
        proof {
            assert(self.risk_cache@.take(m as int) =~= self.risk_cache@);
        }
        put_u64(&mut out, self.density.num);
        put_u64(&mut out, self.density.den);
        let tag: u8 = match self.judge {
            Judge::Random => 0,
            Judge::Strict => 1,
            Judge::Kind => 2,
            Judge::Local => 3,
            Judge::Global => 4,
            Judge::Kaboom => 5,
        };
        out.push(tag);
        out.push(if self.solvable { 1 } else { 0 });
        proof {
            assert(out@ =~= spec_encode_legacy(*self));
        }
        out
    }

    /// Parses an older-layout stream, accepting only streams that re-encode
    /// to themselves.
    pub fn load(bytes: &[u8]) -> (r: Result<Field, DecodeError>)
        ensures
            match r {
                Ok(f) => f.wf() && spec_encode_legacy(f) == bytes@ && spec_revealed_total(
                    f.chunks@,
                ) <= usize::MAX,
                Err(_) => true,
            },
            (exists|lf: Field| lf.wf() && spec_encode_legacy(lf) == bytes@) ==> r is Ok,
    {
        let f = match Self::parse(bytes) {
            Some(f) => f,
            None => { return Err(DecodeError) },
        };
        let back = f.save();
        if bytes_eq(&back, bytes) {
            Ok(f)
        } else {
            Err(DecodeError)
        }
    }

    #[verifier::rlimit(100)]
    #[verifier::spinoff_prover]
    fn parse(bytes: &[u8]) -> (r: Option<Field>)
        ensures
            r is Some ==> r.unwrap().wf() && spec_revealed_total(r.unwrap().chunks@)
                <= usize::MAX,
            (exists|lf: Field| lf.wf() && spec_encode_legacy(lf) == bytes@) ==> r is Some
                && spec_encode_legacy(r.unwrap()) == bytes@,
    {
        let ghost hyp = exists|lf: Field| lf.wf() && spec_encode_legacy(lf) == bytes@;
        let ghost g: Field = if hyp {
            choose|lf: Field| lf.wf() && spec_encode_legacy(lf) == bytes@
        } else {
            arbitrary()
        };
        let ghost nn = g.chunks@.len() as int;
        let ghost mm = g.risk_cache@.len() as int;
        let ghost o1 = 11 + 4112 * nn;
        let ghost o2 = o1 + 8 + 32 * mm;
        proof {
            if hyp {
                lemma_legacy_layout(g);
                crate::codec::lemma_enc_chunks_len(g.chunks@);
                lemma_enc_pairs_len(g.risk_cache@);
                vstd::std_specs::vec::axiom_spec_len(&g.chunks);
                vstd::std_specs::vec::axiom_spec_len(&g.risk_cache);
                vstd::bytes::lemma_auto_spec_u64_to_from_le_bytes();
                assert(bytes@[0] == 0x4du8) by {
                    assert(bytes@.subrange(0, 3)[0] == bytes@[0]);
                }
                assert(bytes@[1] == 0x46u8) by {
                    assert(bytes@.subrange(0, 3)[1] == bytes@[1]);
                }
                assert(bytes@[2] == 0x01u8) by {
                    assert(bytes@.subrange(0, 3)[2] == bytes@[2]);
                }
            }
        }
        let mut pos: usize = 0;
        let (m0, p0) = match read_u8(bytes, pos) {
            Some(v) => v,
            None => {
                proof {
                    if hyp {
                        assert(false);
                    }
                }
                return None;
            },
        };
        let (m1, p1) = match read_u8(bytes, p0) {
            Some(v) => v,
            None => {
                proof {
                    if hyp {
                        assert(false);
                    }
                }
                return None;
            },
        };
        let (m2, p2) = match read_u8(bytes, p1) {
            Some(v) => v,
            None => {
                proof {
                    if hyp {
                        assert(false);
                    }
                }
                return None;
            },
        };
        if m0 != 0x4d || m1 != 0x46 || m2 != 0x01 {
            proof {
                if hyp {
                    assert(false);
                }
            }
            return None;
        }
        pos = p2;
        let blen = bytes.len();
        let ghost chunks_exp: Option<Seq<(Coord, Vec<u8>)>> = if hyp {
            Some(g.chunks@)
        } else {
            None
        };
        let (chunks, p3) = match crate::codec::parse_chunks(bytes, pos, Ghost(chunks_exp)) {
            Some(v) => v,
            None => {
                proof {
                    if hyp {
                        assert(false);
                    }
                }
                return None;
            },
        };
        proof {
            lemma_rev_total_bounds(chunks@);
            assert(spec_revealed_total(chunks@) <= usize::MAX);
            if hyp {
                assert(p3 == o1);
            }
        }
        pos = p3;
        let (n64, p4) = match read_u64(bytes, pos) {
            Some(v) => v,
            None => {
                proof {
                    if hyp {
                        assert(false);
                    }
                }
                return None;
            },
        };
        proof {
            if hyp {
                assert(n64 == g.risk_cache@.len() as u64);
                assert(32 * g.risk_cache@.len() <= blen);
                assert(g.risk_cache@.len() <= usize::MAX);
            }
        }
        if n64 > usize::MAX as u64 {
            proof {
                if hyp {
                    assert(false);
                }
            }
            return None;
        }
        let n = n64 as usize;
        let mut pairs: Vec<(Coord, Risk)> = Vec::new();
        let mut p = p4;
        let mut i: usize = 0;
        while i < n
            invariant
                i <= n,
                p <= bytes@.len(),
                blen == bytes@.len(),
                pairs@.len() == i,
                p == p4 + 32 * i,
                p4 == o1 + 8 || !hyp,
                p4 <= bytes@.len(),
                forall|a: int| 0 <= a < pairs@.len() ==> (#[trigger] pairs@[a]).1.valid(),
                forall|a: int, b: int|
                    0 <= a < b < pairs@.len() ==> (#[trigger] pairs@[a]).0 != (
                    #[trigger] pairs@[b]).0,
                hyp == (exists|lf: Field| lf.wf() && spec_encode_legacy(lf) == bytes@),
                hyp ==> g == (choose|lf: Field| lf.wf() && spec_encode_legacy(lf) == bytes@),
                hyp ==> {
                    &&& g.wf()
                    &&& n == g.risk_cache@.len()
                    &&& o1 == 11 + 4112 * g.chunks@.len()
                    &&& o2 == o1 + 8 + 32 * g.risk_cache@.len()
                    &&& o1 + 8 + 32 * g.risk_cache@.len() <= bytes@.len()
                    &&& bytes@.subrange(o1 + 8, o2) == spec_enc_pairs(g.risk_cache@)
                    &&& pairs@ == g.risk_cache@.take(i as int)
                },
            decreases n - i,
        {
            proof {
                if hyp {
                    vstd::bytes::lemma_auto_spec_u64_to_from_le_bytes();
                    lemma_enc_pairs_at(g.risk_cache@, i as int);
                    crate::codec::lemma_sub_compose(
                        bytes@,
                        o1 + 8,
                        o2,
                        32 * i,
                        32 * (i + 1),
                    );
                    let w = g.risk_cache@[i as int];
                    let unit = spec_enc_i64(w.0.0) + spec_enc_i64(w.0.1) + spec_enc_risk(w.1);
                    assert(bytes@.subrange(p as int, p + 32) == unit);
                    crate::codec::lemma_split_at(
                        unit,
                        spec_enc_i64(w.0.0) + spec_enc_i64(w.0.1),
                        spec_enc_risk(w.1),
                    );
                    crate::codec::lemma_split_at(
                        spec_enc_i64(w.0.0) + spec_enc_i64(w.0.1),
                        spec_enc_i64(w.0.0),
                        spec_enc_i64(w.0.1),
                    );
                    crate::codec::lemma_split_at(
                        spec_enc_risk(w.1),
                        spec_enc_u64(w.1.num),
                        spec_enc_u64(w.1.den),
                    );
                    crate::codec::lemma_sub_compose(bytes@, p as int, p + 32, 0, 8);
                    crate::codec::lemma_sub_compose(bytes@, p as int, p + 32, 8, 16);
                    crate::codec::lemma_sub_compose(bytes@, p as int, p + 32, 16, 32);
                    assert(bytes@.subrange(p + 16, p + 32) == spec_enc_risk(w.1));
                    crate::codec::lemma_sub_compose(bytes@, p + 16, p + 32, 0, 8);
                    crate::codec::lemma_sub_compose(bytes@, p + 16, p + 32, 8, 16);
                    assert(bytes@.subrange(p as int, p + 8) == spec_enc_i64(w.0.0));
                    assert(bytes@.subrange(p + 8, p + 16) == spec_enc_i64(w.0.1));
                    assert(bytes@.subrange(p + 16, p + 24) == spec_enc_u64(w.1.num));
                    assert(bytes@.subrange(p + 24, p + 32) == spec_enc_u64(w.1.den));
                }
            }
            let (x, q0) = match read_i64(bytes, p) {
                Some(v) => v,
                None => {
                    proof {
                        if hyp {
                            assert(false);
                        }
                    }
                    return None;
                },
            };
            let (y, q1) = match read_i64(bytes, q0) {
                Some(v) => v,
                None => {
                    proof {
                        if hyp {
                            assert(false);
                        }
                    }
                    return None;
                },
            };
            let (num, q2) = match read_u64(bytes, q1) {
                Some(v) => v,
                None => {
                    proof {
                        if hyp {
                            assert(false);
                        }
                    }
                    return None;
                },
            };
            let (den, q3) = match read_u64(bytes, q2) {
                Some(v) => v,
                None => {
                    proof {
                        if hyp {
                            assert(false);
                        }
                    }
                    return None;
                },
            };
            proof {
                if hyp {
                    let w = g.risk_cache@[i as int];
                    assert(num == w.1.num && den == w.1.den);
                    assert forall|vv: i64| #[trigger] ((vv as u64) as i64) == vv by {
                        assert((vv as u64) as i64 == vv) by (bit_vector);
                    }
                    assert(x == w.0.0 && y == w.0.1);
                }
            }
            let risk = match Risk::new(num, den) {
                Some(r2) => r2,
                None => {
                    proof {
                        if hyp {
                            assert(g.risk_cache@[i as int].1.valid());
                            assert(false);
                        }
                    }
                    return None;
                },
            };
            let pl = pairs.len();
            let mut d: usize = 0;
            let mut dup = false;
            while d < pl
                invariant
                    pl == pairs@.len(),
                    d <= pl,
                    !dup ==> forall|a: int| 0 <= a < d ==> (#[trigger] pairs@[a]).0 != (x, y),
                    dup ==> exists|a: int| 0 <= a < d && (#[trigger] pairs@[a]).0 == (x, y),
                decreases pl - d,
            {
                let e = pairs[d];
                if e.0.0 == x && e.0.1 == y {
                    proof {
                        assert(pairs@[d as int].0 == (x, y));
                    }
                    dup = true;
                }
                d += 1;
            }
            if dup {
                proof {
                    if hyp {
                        let a = choose|a: int| 0 <= a < pl && (#[trigger] pairs@[a]).0 == (x, y);
                        assert(pairs@[a] == g.risk_cache@.take(i as int)[a]);
                        assert(g.risk_cache@[a].0 == g.risk_cache@[i as int].0);
                        assert(false);
                    }
                }
                return None;
            }
            let ghost before = pairs@;
            pairs.push(((x, y), risk));
            proof {
                assert forall|a: int, b: int|
                    0 <= a < b < pairs@.len() implies (#[trigger] pairs@[a]).0 != (
                    #[trigger] pairs@[b]).0 by {
                    if b < pairs@.len() - 1 {
                        assert(pairs@[a] == before[a] && pairs@[b] == before[b]);
                    } else {
                        assert(pairs@[b].0 == (x, y));
                        if a < pairs@.len() - 1 {
                            assert(pairs@[a] == before[a]);
                        }
                    }
                }
                if hyp {
                    assert(pairs@ =~= g.risk_cache@.take(i + 1)) by {
                        assert forall|a: int|
                            0 <= a < i + 1 implies pairs@[a] == g.risk_cache@.take(i + 1)[a] by {
                            if a < i {
                                assert(pairs@[a] == before[a]);
                                assert(before[a] == g.risk_cache@.take(i as int)[a]);
                            }
                        }
                    }
                }
            }
            p = q3;
            i += 1;
        }
        proof {
            if hyp {
                assert(pairs@ == g.risk_cache@) by {
                    assert(g.risk_cache@.take(n as int) =~= g.risk_cache@);
                }
                assert(p == o2);
            }
        }
        let (dnum, p5) = match read_u64(bytes, p) {
            Some(v) => v,
            None => {
                proof {
                    if hyp {
                        assert(false);
                    }
                }
                return None;
            },
        };
        let (dden, p6) = match read_u64(bytes, p5) {
            Some(v) => v,
            None => {
                proof {
                    if hyp {
                        assert(false);
                    }
                }
                return None;
            },
        };
        proof {
            if hyp {
                assert(dnum == g.density.num && dden == g.density.den);
            }
        }
        let density = match Risk::new(dnum, dden) {
            Some(d) => d,
            None => {
                proof {
                    if hyp {
                        assert(false);
                    }
                }
                return None;
            },
        };
        let (tag, p7) = match read_u8(bytes, p6) {
            Some(v) => v,
            None => {
                proof {
                    if hyp {
                        assert(false);
                    }
                }
                return None;
            },
        };
        proof {
            if hyp {
                assert(tag == spec_legacy_tag(g.judge));
            }
        }
        let judge = match tag {
            0 => Judge::Random,
            1 => Judge::Strict,
            2 => Judge::Kind,
            3 => Judge::Local,
            4 => Judge::Global,
            5 => Judge::Kaboom,
            _ => {
                proof {
                    if hyp {
                        assert(false);
                    }
                }
                return None;
            },
        };
        let (sv, p8) = match read_u8(bytes, p7) {
            Some(v) => v,
            None => {
                proof {
                    if hyp {
                        assert(false);
                    }
                }
                return None;
            },
        };
        let solvable = match sv {
            0 => false,
            1 => true,
            _ => {
                proof {
                    if hyp {
                        assert(false);
                    }
                }
                return None;
            },
        };
        if p8 != bytes.len() {
            proof {
                if hyp {
                    assert(false);
                }
            }
            return None;
        }
        let f = Field { chunks, risk_cache: pairs, density, judge, solvable };
        proof {
            if hyp {
                assert(f.chunks@.len() == g.chunks@.len());
                crate::codec::lemma_enc_chunks_congruent(f.chunks@, g.chunks@);
                assert(f.risk_cache@ == g.risk_cache@);
                assert(f.density == g.density);
                assert(judge == g.judge);
                assert(solvable == g.solvable);
                assert(spec_enc_u64(f.chunks@.len() as u64) == spec_enc_u64(
                    g.chunks@.len() as u64,
                ));
                assert(spec_enc_u64(f.risk_cache@.len() as u64) == spec_enc_u64(
                    g.risk_cache@.len() as u64,
                ));
                assert(spec_encode_legacy(f) == spec_encode_legacy(g));
            }
        }
        Some(f)
    }

    /// Converts an older state into a current one: the board carries over
    /// unchanged, the reveal counter is recomputed from the chunk bytes,
    /// the probability map becomes the ordered cache with the same
    /// contents, the size becomes unbounded, and the clock restarts.
    pub fn upgrade(self) -> (f: crate::field::Field)
        requires
            self.wf(),
            spec_revealed_total(self.chunks@) <= usize::MAX,
        ensures
            f.wf(),
            f.chunks == self.chunks,
            f.cells_revealed == spec_revealed_total(self.chunks@),
            f.risk_cache.entries@.len() == self.risk_cache@.len(),
            forall|i: int|
                0 <= i < self.risk_cache@.len() ==> f.risk_cache.spec_get(
                    (#[trigger] self.risk_cache@[i]).0,
                ) == Some(self.risk_cache@[i].1),
            forall|p: Coord|
                f.risk_cache.spec_contains(p) ==> exists|i: int|
                    0 <= i < self.risk_cache@.len() && (#[trigger] self.risk_cache@[i]).0 == p,
            f.density == self.density,
            f.judge == spec_upgrade_judge(self.judge),
            f.solvable == self.solvable,
            f.size == Option::<(usize, usize)>::None,
            f.time_elapsed_ms == 0,
    {
        let cells = count_revealed(&self.chunks);
        let mut cache = RiskCache::new();
        let n = self.risk_cache.len();
        let mut i: usize = 0;
        while i < n
            invariant
                n == self.risk_cache@.len(),
                i <= n,
                cache.wf(),
                cache.entries@.len() == i,
                forall|a: int| 0 <= a < n ==> (#[trigger] self.risk_cache@[a]).1.valid(),
                forall|a: int, b: int|
                    0 <= a < b < n ==> (#[trigger] self.risk_cache@[a]).0 != (
                    #[trigger] self.risk_cache@[b]).0,
                forall|a: int|
                    0 <= a < i ==> cache.spec_get((#[trigger] self.risk_cache@[a]).0) == Some(
                        self.risk_cache@[a].1,
                    ),
                forall|p: Coord|
                    cache.spec_contains(p) ==> exists|a: int|
                        0 <= a < i && (#[trigger] self.risk_cache@[a]).0 == p,
            decreases n - i,
        {
            let e = self.risk_cache[i];
            proof {
                if cache.spec_contains(e.0) {
                    let a = choose|a: int|
                        0 <= a < i && (#[trigger] self.risk_cache@[a]).0 == e.0;
                    assert(self.risk_cache@[a].0 != self.risk_cache@[i as int].0);
                    assert(false);
                }
            }
            let ghost before = cache;
            cache.insert(e.0, e.1);
            proof {
                assert forall|a: int|
                    0 <= a < i + 1 implies cache.spec_get((#[trigger] self.risk_cache@[a]).0)
                    == Some(self.risk_cache@[a].1) by {
                    if a < i {
                        assert(self.risk_cache@[a].0 != e.0);
                        assert(cache.spec_get(self.risk_cache@[a].0) == before.spec_get(
                            self.risk_cache@[a].0,
                        ));
                    }
                }
                assert forall|p: Coord| cache.spec_contains(p) implies exists|a: int|
                    0 <= a < i + 1 && (#[trigger] self.risk_cache@[a]).0 == p by {
                    if p == e.0 {
                        assert(self.risk_cache@[i as int].0 == p);
                    } else {
                        assert(cache.spec_get(p) == before.spec_get(p));
                        assert(before.spec_contains(p));
                    }
                }
            }
            i += 1;
        }
        let judge = match self.judge {
            Judge::Random => crate::judges::Judge::Random,
            Judge::Strict => crate::judges::Judge::Strict,
            Judge::Kind => crate::judges::Judge::Kind,
            Judge::Local => crate::judges::Judge::Local,
            Judge::Global => crate::judges::Judge::Global,
            Judge::Kaboom => crate::judges::Judge::KaboomGlobal,
        };
        crate::field::Field {
            chunks: self.chunks,
            risk_cache: cache,
            density: self.density,
            judge,
            solvable: self.solvable,
            size: None,
            cells_revealed: cells,
            time_elapsed_ms: 0,
        }
    }
}

/// Counts the revealed cells across the chunk list.
fn count_revealed(cs: &Vec<(Coord, Vec<u8>)>) -> (r: usize)
    requires
        forall|i: int| 0 <= i < cs@.len() ==> (#[trigger] cs@[i]).1@.len() == 4096,
        spec_revealed_total(cs@) <= usize::MAX,
    ensures
        r == spec_revealed_total(cs@),
{
    let n = cs.len();
    let mut acc: usize = 0;
    let mut i: usize = 0;
    while i < n
        invariant
            n == cs@.len(),
            i <= n,
            forall|k: int| 0 <= k < n ==> (#[trigger] cs@[k]).1@.len() == 4096,
            spec_revealed_total(cs@) <= usize::MAX,
            acc == spec_revealed_total(cs@.take(i as int)),
        decreases n - i,
    {
        let c = count_in_chunk(&cs[i].1);
        proof {
            let t = cs@.take(i + 1);
            assert(t.drop_last() =~= cs@.take(i as int));
            assert(t.last() == cs@[i as int]);
            lemma_rev_total_mono(cs@, i + 1);
            assert(spec_revealed_total(cs@.take(i + 1)) <= spec_revealed_total(cs@));
            lemma_rev_chunk_bounds(cs@[i as int].1@);
            lemma_rev_total_mono(cs@, i as int);
        }
        acc = acc + c;
        i += 1;
    }
    proof {
        assert(cs@.take(n as int) =~= cs@);
    }
    acc
}

/// Counts the revealed cells in one chunk.
fn count_in_chunk(s: &Vec<u8>) -> (r: usize)
    ensures
        r == spec_rev_in_chunk(s@),
        r <= s@.len(),
{
    let n = s.len();
    let mut acc: usize = 0;
    let mut i: usize = 0;
    while i < n
        invariant
            n == s@.len(),
            i <= n,
            acc == spec_rev_in_chunk(s@.take(i as int)),
            acc <= i,
        decreases n - i,
    {
        proof {
            let t = s@.take(i + 1);
            assert(t.drop_last() =~= s@.take(i as int));
            assert(t.last() == s@[i as int]);
        }
        if s[i] % 2 == 1 {
            acc = acc + 1;
        }
        i += 1;
    }
    proof {
        assert(s@.take(n as int) =~= s@);
    }
    acc
}

} // verus!
