use vstd::prelude::*;

use crate::io::Decode;
use crate::tlv::{tlv_encoding, tlv_parse, TLV};

verus! {

// The body of a container TLV (an Interest, Data, MetaInfo, a signature
// info): TLVs of known types in their canonical order, each at most once, and
// unknown non-critical TLVs in the gaps between them. Gap `j` lies before the
// known field `j`; a container allows only its first few gaps. A container may
// stop after one of its fields; the rest of its body is then read by the
// container itself.

/// The index of `t` among the known types, or -1.
pub open spec fn kind_index(kinds: Seq<u32>, t: u32) -> int
    decreases kinds.len(),
{
    if kinds.len() == 0 {
        -1
    } else if kinds.last() == t {
        kinds.len() - 1
    } else {
        kind_index(kinds.drop_last(), t)
    }
}

pub proof fn lemma_kind_index(kinds: Seq<u32>, t: u32)
    ensures
        -1 <= kind_index(kinds, t) < kinds.len(),
        kind_index(kinds, t) >= 0 ==> kinds[kind_index(kinds, t)] == t,
        kind_index(kinds, t) < 0 ==> forall|i: int| 0 <= i < kinds.len() ==> kinds[i] != t,
    decreases kinds.len(),
{
    if kinds.len() > 0 && kinds.last() != t {
        lemma_kind_index(kinds.drop_last(), t);
        assert forall|i: int| 0 <= i < kinds.len() && kind_index(kinds, t) < 0 implies kinds[i]
            != t by {
            if i < kinds.len() - 1 {
                assert(kinds[i] == kinds.drop_last()[i]);
            }
        }
    }
}

/// The fields read so far: the value of each known field, the bytes of each
/// gap, and the index of the first known field that may still come.
pub struct FieldsView {
    pub known: Seq<Option<Seq<u8>>>,
    pub gaps: Seq<Seq<u8>>,
    pub next: nat,
}

pub open spec fn fields_start(n_kinds: nat, n_gaps: nat) -> FieldsView {
    FieldsView {
        known: Seq::new(n_kinds, |i: int| None),
        gaps: Seq::new(n_gaps, |i: int| Seq::empty()),
        next: 0,
    }
}

/// Whether an unknown type may be skipped: 32 or more, and even.
pub open spec fn non_critical(t: u32) -> bool {
    t >= 32 && t % 2 == 0
}

/// Reads fields from `s` into `st` until `s` ends or the field `stop` has
/// been read: the fields and the number of bytes read, or none where a TLV
/// does not decode, a known field comes out of order, an unknown TLV is
/// critical, or it falls in a gap that the container does not allow.
pub open spec fn fields_parse(
    s: Seq<u8>,
    kinds: Seq<u32>,
    stop: nat,
    st: FieldsView,
) -> Option<(FieldsView, nat)>
    decreases s.len(),
{
    if s.len() == 0 || st.next > stop {
        Some((st, 0))
    } else {
        match tlv_parse(s) {
            Err(_) => None,
            Ok((t, v, n)) => {
                if n == 0 || n > s.len() {
                    None
                } else {
                    let k = kind_index(kinds, t);
                    let st2 = if k >= 0 {
                        FieldsView { known: st.known.update(k, Some(v)), next: (k + 1) as nat, ..st }
                    } else {
                        FieldsView {
                            gaps: st.gaps.update(st.next as int, st.gaps[st.next as int] + s.take(
                                n as int,
                            )),
                            ..st
                        }
                    };
                    if (k >= 0 && k < st.next) || (k < 0 && (!non_critical(t) || st.next
                        >= st.gaps.len())) {
                        None
                    } else {
                        match fields_parse(s.skip(n as int), kinds, stop, st2) {
                            Some((st3, m)) => Some((st3, m + n)),
                            None => None,
                        }
                    }
                }
            },
        }
    }
}

/// The encoding of an optional field.
pub open spec fn opt_tlv(t: u32, v: Option<Seq<u8>>) -> Seq<u8> {
    match v {
        Some(b) => tlv_encoding(t, b),
        None => Seq::empty(),
    }
}

/// The encoding of the first `k` fields, each after its gap.
pub open spec fn fields_encoding_upto(f: FieldsView, kinds: Seq<u32>, k: nat) -> Seq<u8>
    decreases k,
{
    if k == 0 {
        Seq::empty()
    } else {
        let j = k - 1;
        fields_encoding_upto(f, kinds, j as nat) + (if j < f.gaps.len() {
            f.gaps[j]
        } else {
            Seq::empty()
        }) + opt_tlv(kinds[j], f.known[j])
    }
}

/// The encoding of all fields, and of the gap after the last one.
pub open spec fn fields_encoding(f: FieldsView, kinds: Seq<u32>) -> Seq<u8> {
    fields_encoding_upto(f, kinds, kinds.len()) + if f.gaps.len() > kinds.len() {
        f.gaps[kinds.len() as int]
    } else {
        Seq::empty()
    }
}

/// The fields of a container body, as values of this crate.
pub struct Fields<'a> {
    pub known: Vec<Option<&'a [u8]>>,
    pub gaps: Vec<&'a [u8]>,
    pub next: usize,
}

pub open spec fn known_views<'a>(k: Seq<Option<&'a [u8]>>) -> Seq<Option<Seq<u8>>> {
    k.map_values(|o: Option<&'a [u8]>| match o {
        Some(b) => Some(b@),
        None => None,
    })
}

pub open spec fn gap_views<'a>(g: Seq<&'a [u8]>) -> Seq<Seq<u8>> {
    g.map_values(|b: &'a [u8]| b@)
}

impl<'a> Fields<'a> {
    pub open spec fn view(&self) -> FieldsView {
        FieldsView { known: known_views(self.known@), gaps: gap_views(self.gaps@), next: self.next as nat }
    }
}

/// Reads the fields of `body` from `start`; returns them and where reading stopped.
pub fn parse_fields<'a>(
    body: &'a [u8],
    start: usize,
    kinds: &[u32],
    n_gaps: usize,
    stop: usize,
) -> (r: Option<(Fields<'a>, usize)>)
    requires
        start <= body@.len(),
        n_gaps <= kinds@.len() + 1,
    ensures
        match fields_parse(
            body@.skip(start as int),
            kinds@,
            stop as nat,
            fields_start(kinds@.len(), n_gaps as nat),
        ) {
            Some((f, m)) => r matches Some((fs, end)) && fs.view() == f && end == start + m
                && end <= body@.len() && fs.known@.len() == kinds@.len() && fs.gaps@.len()
                == n_gaps,
            None => r is None,
        },
{
    let total = body.len();
    let mut known: Vec<Option<&'a [u8]>> = Vec::new();
    let mut i: usize = 0;
    while i < kinds.len()
        invariant
            i <= kinds@.len(),
            known@.len() == i,
            forall|j: int| 0 <= j < i ==> #[trigger] known@[j] is None,
        decreases kinds@.len() - i,
    {
        known.push(None);
        i = i + 1;
    }
    // Each gap is a range of `body`; an empty gap is the empty range at 0.
    let mut gap_ranges: Vec<(usize, usize)> = Vec::new();
    let mut i: usize = 0;
    while i < n_gaps
        invariant
            i <= n_gaps,
            gap_ranges@.len() == i,
            forall|j: int| 0 <= j < i ==> #[trigger] gap_ranges@[j] == (0usize, 0usize),
        decreases n_gaps - i,
    {
        gap_ranges.push((0, 0));
        i = i + 1;
    }
    let ghost st0 = fields_start(kinds@.len(), n_gaps as nat);
    let mut next: usize = 0;
    let mut offset: usize = start;
    proof {
        assert(known_views(known@) =~= st0.known);
        assert forall|j: int| 0 <= j < n_gaps implies body@.subrange(
            gap_ranges@[j].0 as int,
            gap_ranges@[j].1 as int,
        ) =~= Seq::<u8>::empty() by {}
        assert(Seq::new(
            n_gaps as nat,
            |j: int| body@.subrange(gap_ranges@[j].0 as int, gap_ranges@[j].1 as int),
        ) =~= st0.gaps);
    }
    while offset < total && next <= stop
        invariant
            st0 == fields_start(kinds@.len(), n_gaps as nat),
            total == body@.len(),
            start <= offset <= total,
            known@.len() == kinds@.len(),
            gap_ranges@.len() == n_gaps,
            n_gaps <= kinds@.len() + 1,
            next <= kinds@.len(),
            forall|j: int|
                0 <= j < n_gaps ==> (#[trigger] gap_ranges@[j]).0 <= gap_ranges@[j].1 <= offset,
            forall|j: int|
                0 <= j < n_gaps && gap_ranges@[j].0 != gap_ranges@[j].1 ==> j < next || (j == next
                    && (#[trigger] gap_ranges@[j]).1 == offset),
            ({
                let st = FieldsView {
                    known: known_views(known@),
                    gaps: Seq::new(
                        n_gaps as nat,
                        |j: int| body@.subrange(gap_ranges@[j].0 as int, gap_ranges@[j].1 as int),
                    ),
                    next: next as nat,
                };
                match fields_parse(body@.skip(start as int), kinds@, stop as nat, st0) {
                    Some((f, m)) => fields_parse(body@.skip(offset as int), kinds@, stop as nat, st)
                        == Some((f, (m - (offset - start)) as nat)) && m >= offset - start,
                    None => fields_parse(body@.skip(offset as int), kinds@, stop as nat, st) is None,
                }
            }),
        decreases total - offset,
    {
        let ghost st = FieldsView {
            known: known_views(known@),
            gaps: Seq::new(
                n_gaps as nat,
                |j: int| body@.subrange(gap_ranges@[j].0 as int, gap_ranges@[j].1 as int),
            ),
            next: next as nat,
        };
        let rest = &body[offset..total];
        assert(rest@ =~= body@.skip(offset as int));
        let (tlv, n) = match TLV::try_decode(rest) {
            Ok(x) => x,
            Err(_) => {
                assert(fields_parse(body@.skip(offset as int), kinds@, stop as nat, st) is None);
                assert(fields_parse(body@.skip(start as int), kinds@, stop as nat, st0) is None);
                return None;
            },
        };
        proof {
            crate::tlv::lemma_tlv_parse_canonical(rest@);
            crate::tlv::lemma_varint_encoding_len(tlv.typ as u64);
        }
        let mut kk: usize = kinds.len();
        proof {
            assert(kinds@.take(kk as int) =~= kinds@);
        }
        while kk > 0 && kinds[kk - 1] != tlv.typ
            invariant
                kk <= kinds@.len(),
                kind_index(kinds@, tlv.typ) == kind_index(kinds@.take(kk as int), tlv.typ),
            decreases kk,
        {
            assert(kinds@.take(kk as int).drop_last() =~= kinds@.take(kk - 1));
            kk = kk - 1;
        }
        let k: usize = if kk == 0 {
            kinds.len()
        } else {
            kk - 1
        };
        proof {
            lemma_kind_index(kinds@, tlv.typ);
            if kk > 0 {
                assert(kinds@.take(kk as int).last() == tlv.typ);
                assert(kind_index(kinds@, tlv.typ) == k);
            } else {
                assert(kind_index(kinds@, tlv.typ) == -1);
            }
        }
        if k < kinds.len() {
            if k < next {
                assert(fields_parse(body@.skip(offset as int), kinds@, stop as nat, st) is None);
                assert(fields_parse(body@.skip(start as int), kinds@, stop as nat, st0) is None);
                return None;
            }
            known.set(k, Some(tlv.val));
            next = k + 1;
            proof {
                let st2 = FieldsView { known: st.known.update(k as int, Some(tlv.val@)), next: (k + 1) as nat, ..st };
                assert(known_views(known@) =~= st2.known);
                assert(body@.skip(offset as int).skip(n as int) =~= body@.skip(offset + n));
            }
        } else {
            if tlv.typ < 32 || tlv.typ % 2 == 1 || next >= n_gaps {
                assert(fields_parse(body@.skip(offset as int), kinds@, stop as nat, st) is None);
                assert(fields_parse(body@.skip(start as int), kinds@, stop as nat, st0) is None);
                return None;
            }
            let (b, e) = gap_ranges[next];
            if b == e {
                gap_ranges.set(next, (offset, offset + n));
            } else {
                gap_ranges.set(next, (b, e + n));
            }
            proof {
                let j = next as int;
                let old_gap = body@.subrange(b as int, e as int);
                assert(rest@.take(n as int) =~= body@.subrange(offset as int, offset + n));
                if b == e {
                    assert(body@.subrange(offset as int, offset + n) =~= old_gap + rest@.take(
                        n as int,
                    ));
                } else {
                    assert(body@.subrange(b as int, e + n) =~= old_gap + rest@.take(n as int));
                }
                let st2 = FieldsView {
                    gaps: st.gaps.update(j, st.gaps[j] + body@.skip(offset as int).take(n as int)),
                    ..st
                };
                assert(Seq::new(
                    n_gaps as nat,
                    |jj: int| body@.subrange(gap_ranges@[jj].0 as int, gap_ranges@[jj].1 as int),
                ) =~= st2.gaps);
                assert(body@.skip(offset as int).skip(n as int) =~= body@.skip(offset + n));
            }
        }
        offset = offset + n;
    }
    let mut gaps: Vec<&'a [u8]> = Vec::new();
    let mut j: usize = 0;
    while j < n_gaps
        invariant
            j <= n_gaps,
            gap_ranges@.len() == n_gaps,
            total == body@.len(),
            forall|jj: int|
                0 <= jj < n_gaps ==> (#[trigger] gap_ranges@[jj]).0 <= gap_ranges@[jj].1 <= total,
            gaps@.len() == j,
            forall|jj: int|
                0 <= jj < j ==> (#[trigger] gaps@[jj])@ == body@.subrange(
                    gap_ranges@[jj].0 as int,
                    gap_ranges@[jj].1 as int,
                ),
        decreases n_gaps - j,
    {
        let (b, e) = gap_ranges[j];
        gaps.push(&body[b..e]);
        j = j + 1;
    }
    let fs = Fields { known, gaps, next };
    proof {
        assert(gap_views(fs.gaps@) =~= Seq::new(
            n_gaps as nat,
            |jj: int| body@.subrange(gap_ranges@[jj].0 as int, gap_ranges@[jj].1 as int),
        ));
        assert(body@.skip(offset as int).len() == 0 || next > stop);
    }
    Some((fs, offset))
}


/// The bytes of gap `j`, empty where the container has no such gap.
pub open spec fn gap_at(f: FieldsView, j: nat) -> Seq<u8> {
    if j < f.gaps.len() {
        f.gaps[j as int]
    } else {
        Seq::empty()
    }
}

/// Nothing is set at or after the next field, and no gap after its gap is
/// filled: what reading in order leaves.
pub open spec fn fields_clean(f: FieldsView, kinds: Seq<u32>) -> bool {
    &&& f.known.len() == kinds.len()
    &&& f.gaps.len() <= kinds.len() + 1
    &&& f.next <= kinds.len()
    &&& forall|k: int| f.next <= k < kinds.len() ==> #[trigger] f.known[k] is None
    &&& forall|j: int| f.next < j < f.gaps.len() ==> (#[trigger] f.gaps[j]).len() == 0
}

pub proof fn lemma_upto_agree(f: FieldsView, g: FieldsView, kinds: Seq<u32>, j: nat)
    requires
        j <= kinds.len(),
        f.known.len() == kinds.len() && g.known.len() == kinds.len(),
        f.gaps.len() == g.gaps.len(),
        forall|k: int| 0 <= k < j ==> f.known[k] == g.known[k],
        forall|k: int| 0 <= k < j && k < f.gaps.len() ==> f.gaps[k] == g.gaps[k],
    ensures
        fields_encoding_upto(f, kinds, j) == fields_encoding_upto(g, kinds, j),
    decreases j,
{
    if j > 0 {
        lemma_upto_agree(f, g, kinds, (j - 1) as nat);
    }
}

/// Past the next field, a clean reading adds only the next gap.
proof fn lemma_upto_clean(f: FieldsView, kinds: Seq<u32>, j: nat)
    requires
        fields_clean(f, kinds),
        f.next < j <= kinds.len(),
    ensures
        fields_encoding_upto(f, kinds, j) == fields_encoding_upto(f, kinds, f.next) + gap_at(
            f,
            f.next,
        ),
    decreases j,
{
    if j - 1 > f.next {
        lemma_upto_clean(f, kinds, (j - 1) as nat);
        assert(f.known[j - 1] is None);
        if j - 1 < f.gaps.len() {
            assert(f.gaps[j - 1].len() == 0);
            assert(f.gaps[j - 1] =~= Seq::<u8>::empty());
        }
        assert(fields_encoding_upto(f, kinds, j) =~= fields_encoding_upto(f, kinds, (j - 1) as nat));
    } else {
        assert(f.known[f.next as int] is None);
        assert(fields_encoding_upto(f, kinds, j) =~= fields_encoding_upto(f, kinds, f.next)
            + gap_at(f, f.next));
    }
}

/// A clean reading encodes as the fields read and the gap being filled.
proof fn lemma_encoding_clean(f: FieldsView, kinds: Seq<u32>)
    requires
        fields_clean(f, kinds),
    ensures
        fields_encoding(f, kinds) == fields_encoding_upto(f, kinds, f.next) + gap_at(f, f.next),
{
    if f.next < kinds.len() {
        lemma_upto_clean(f, kinds, kinds.len());
        if f.gaps.len() > kinds.len() {
            assert(f.gaps[kinds.len() as int].len() == 0);
            assert(f.gaps[kinds.len() as int] =~= Seq::<u8>::empty());
        }
        assert(fields_encoding(f, kinds) =~= fields_encoding_upto(f, kinds, f.next) + gap_at(
            f,
            f.next,
        ));
    } else {
        assert(fields_encoding(f, kinds) =~= fields_encoding_upto(f, kinds, f.next) + gap_at(
            f,
            f.next,
        ));
    }
}

/// Round trip of the fields: what reading consumes is exactly the encoding
/// of what it read, after the encoding of where it started.
pub proof fn lemma_fields_round_trip(s: Seq<u8>, kinds: Seq<u32>, stop: nat, st: FieldsView)
    requires
        fields_clean(st, kinds),
        fields_parse(s, kinds, stop, st) is Some,
    ensures
        ({
            let (f, m) = fields_parse(s, kinds, stop, st)->Some_0;
            &&& m <= s.len()
            &&& f.gaps.len() == st.gaps.len()
            &&& fields_clean(f, kinds)
            &&& fields_encoding(f, kinds) == fields_encoding(st, kinds) + s.take(m as int)
        }),
    decreases s.len(),
{
    lemma_encoding_clean(st, kinds);
    if s.len() == 0 || st.next > stop {
        assert(s.take(0) =~= Seq::<u8>::empty());
        assert(fields_encoding(st, kinds) + s.take(0) =~= fields_encoding(st, kinds));
    } else {
        let (t, v, n) = tlv_parse(s)->Ok_0;
        crate::tlv::lemma_tlv_parse_canonical(s);
        lemma_kind_index(kinds, t);
        let k = kind_index(kinds, t);
        let st2 = if k >= 0 {
            FieldsView { known: st.known.update(k, Some(v)), next: (k + 1) as nat, ..st }
        } else {
            FieldsView {
                gaps: st.gaps.update(st.next as int, st.gaps[st.next as int] + s.take(n as int)),
                ..st
            }
        };
        let e = s.take(n as int);
        assert(fields_clean(st2, kinds));
        if k >= 0 {
            // The known field `k` joins the encoding right after the gap being filled.
            lemma_upto_agree(st2, st, kinds, k as nat);
            if k > st.next {
                lemma_upto_clean(st, kinds, k as nat);
                if k < st.gaps.len() {
                    assert(st.gaps[k].len() == 0);
                    assert(st.gaps[k] =~= Seq::<u8>::empty());
                }
            }
            lemma_encoding_clean(st2, kinds);
            if k + 1 < st2.gaps.len() {
                assert(st2.gaps[k + 1].len() == 0);
                assert(st2.gaps[k + 1] =~= Seq::<u8>::empty());
            }
            assert(fields_encoding(st2, kinds) =~= fields_encoding(st, kinds) + e);
        } else {
            lemma_upto_agree(st2, st, kinds, st.next);
            lemma_encoding_clean(st2, kinds);
            assert(fields_encoding(st2, kinds) =~= fields_encoding(st, kinds) + e);
        }
        lemma_fields_round_trip(s.skip(n as int), kinds, stop, st2);
        let (f, m2) = fields_parse(s.skip(n as int), kinds, stop, st2)->Some_0;
        assert(s.take((m2 + n) as int) =~= e + s.skip(n as int).take(m2 as int));
    }
}

/// The start of a reading is clean and encodes as nothing.
pub proof fn lemma_fields_start(n_kinds: nat, n_gaps: nat, kinds: Seq<u32>)
    requires
        n_kinds == kinds.len(),
        n_gaps <= n_kinds + 1,
    ensures
        fields_clean(fields_start(n_kinds, n_gaps), kinds),
        fields_encoding(fields_start(n_kinds, n_gaps), kinds) == Seq::<u8>::empty(),
{
    let st = fields_start(n_kinds, n_gaps);
    lemma_encoding_clean(st, kinds);
    if n_gaps > 0 {
        assert(st.gaps[0] =~= Seq::<u8>::empty());
    }
    assert(fields_encoding_upto(st, kinds, 0) =~= Seq::<u8>::empty());
    assert(fields_encoding(st, kinds) =~= Seq::<u8>::empty());
}


pub open spec fn owned_views(v: Seq<Option<Vec<u8>>>) -> Seq<Option<Seq<u8>>> {
    v.map_values(|o: Option<Vec<u8>>| match o {
        Some(b) => Some(b@),
        None => None,
    })
}

/// Appends the fields `values` with the gaps `gaps` in canonical order.
pub fn append_fields(
    out: &mut Vec<u8>,
    kinds: &[u32],
    values: &Vec<Option<Vec<u8>>>,
    gaps: &Vec<&[u8]>,
)
    requires
        values@.len() == kinds@.len(),
    ensures
        final(out)@ == old(out)@ + fields_encoding(
            FieldsView { known: owned_views(values@), gaps: gap_views(gaps@), next: 0 },
            kinds@,
        ),
{
    let ghost f = FieldsView { known: owned_views(values@), gaps: gap_views(gaps@), next: 0 };
    let mut k: usize = 0;
    assert(old(out)@ + fields_encoding_upto(f, kinds@, 0) =~= old(out)@);
    while k < kinds.len()
        invariant
            f == (FieldsView { known: owned_views(values@), gaps: gap_views(gaps@), next: 0 }),
            values@.len() == kinds@.len(),
            k <= kinds@.len(),
            out@ == old(out)@ + fields_encoding_upto(f, kinds@, k as nat),
        decreases kinds@.len() - k,
    {
        let ghost before = out@;
        if k < gaps.len() {
            crate::io::append_bytes(out, gaps[k]);
        }
        let ghost mid = out@;
        match &values[k] {
            Some(v) => {
                assert(f.known[k as int] == Some(v@));
                crate::tlv::append_tlv(out, kinds[k], v.as_slice());
            },
            None => {},
        }
        proof {
            assert(mid == before + (if k < f.gaps.len() {
                f.gaps[k as int]
            } else {
                Seq::empty()
            })) by {
                if k >= gaps@.len() {
                    assert(mid =~= before + Seq::<u8>::empty());
                }
            }
            if values@[k as int] is None {
                assert(out@ =~= mid + opt_tlv(kinds@[k as int], f.known[k as int]));
            }
        }
        k = k + 1;
        assert(out@ =~= old(out)@ + fields_encoding_upto(f, kinds@, k as nat));
    }
    if gaps.len() > kinds.len() {
        crate::io::append_bytes(out, gaps[kinds.len()]);
    }
    assert(out@ =~= old(out)@ + fields_encoding(f, kinds@));
}

/// The encoding of fields depends on their values and gaps alone.
pub proof fn lemma_fields_encoding_ext(f: FieldsView, g: FieldsView, kinds: Seq<u32>)
    requires
        f.known.len() == kinds.len(),
        f.known =~= g.known,
        f.gaps =~= g.gaps,
    ensures
        fields_encoding(f, kinds) == fields_encoding(g, kinds),
{
    lemma_upto_agree(f, g, kinds, kinds.len());
}

} // verus!
