use vstd::prelude::*;

use crate::entity::{Entity, Rollback};
use crate::registry::{TypeRegistry, is_registered};
use crate::snapshot::{
    RecordModel, RollbackEntity, SnapshotModel, WorldSnapshot, lemma_record_views_push, record_views,
};
use crate::value::{Value, ValueModel, lemma_views_push, views};

verus! {

/// The lowercase hexadecimal digit of a nibble.
pub open spec fn hex_digit(n: nat) -> u8 {
    if n < 10 {
        (48 + n) as u8
    } else {
        (87 + n) as u8
    }
}

/// The `w` lowest hexadecimal digits of `v`, most significant first.
pub open spec fn enc_hex(v: nat, w: nat) -> Seq<u8>
    decreases w,
{
    if w == 0 {
        Seq::empty()
    } else {
        enc_hex(v / 16, (w - 1) as nat).push(hex_digit(v % 16))
    }
}

pub open spec fn enc_u32(v: u32) -> Seq<u8> {
    enc_hex(v as nat, 8)
}

pub open spec fn enc_u64(v: u64) -> Seq<u8> {
    enc_hex(v as nat, 16)
}

/// The encodings of a list's items, one after another.
pub open spec fn enc_seq<A>(s: Seq<A>, f: spec_fn(A) -> Seq<u8>) -> Seq<u8>
    decreases s.len(),
{
    if s.len() == 0 {
        Seq::empty()
    } else {
        enc_seq(s.drop_last(), f) + f(s.last())
    }
}

pub open spec fn enc_words(s: Seq<u64>) -> Seq<u8> {
    enc_seq(s, |x: u64| enc_u64(x))
}

pub open spec fn enc_entity(e: Entity) -> Seq<u8> {
    enc_u32(e.index) + enc_u32(e.generation)
}

pub open spec fn enc_refs(s: Seq<Entity>) -> Seq<u8> {
    enc_seq(s, |e: Entity| enc_entity(e))
}

/// What a value holds: its type tag, then its payload and its references, each preceded by
/// its length.
pub open spec fn value_body(v: ValueModel) -> Seq<u8> {
    enc_u32(v.type_id) + enc_hex(v.words.len(), 16) + enc_words(v.words) + enc_hex(v.refs.len(), 16)
        + enc_refs(v.refs)
}

/// A value, preceded by the byte length of its body so that a reader can step over it.
pub open spec fn enc_value(v: ValueModel) -> Seq<u8> {
    enc_hex(value_body(v).len(), 16) + value_body(v)
}

pub open spec fn enc_values(s: Seq<ValueModel>) -> Seq<u8> {
    enc_seq(s, |v: ValueModel| enc_value(v))
}

/// A record: captured identity, Rollback Id, then its components preceded by their count.
pub open spec fn enc_record(r: RecordModel) -> Seq<u8> {
    enc_entity(r.entity) + enc_u32(r.rollback_id.id) + enc_hex(r.components.len(), 16) + enc_values(
        r.components,
    )
}

pub open spec fn enc_records(s: Seq<RecordModel>) -> Seq<u8> {
    enc_seq(s, |r: RecordModel| enc_record(r))
}

/// The text of a snapshot: the records preceded by their count, the resources preceded by
/// theirs, then the checksum.
pub open spec fn enc_snapshot(m: SnapshotModel) -> Seq<u8> {
    enc_hex(m.entities.len(), 16) + enc_records(m.entities) + enc_hex(m.resources.len(), 16)
        + enc_values(m.resources) + enc_u64(m.checksum)
}

fn push_hex(out: &mut Vec<u8>, v: u64, w: usize)
    ensures
        final(out)@ == old(out)@ + enc_hex(v as nat, w as nat),
    decreases w,
{
    if w == 0 {
        assert(old(out)@ + enc_hex(v as nat, 0) =~= old(out)@);
    } else {
        push_hex(out, v / 16, w - 1);
        let n = v % 16;
        let d: u8 = if n < 10 {
            48 + n as u8
        } else {
            87 + n as u8
        };
        out.push(d);
        assert(out@ =~= old(out)@ + enc_hex(v as nat, w as nat));
    }
}

fn push_value(out: &mut Vec<u8>, v: &Value)
    ensures
        final(out)@ == old(out)@ + enc_value(v@),
{
    let mut body: Vec<u8> = Vec::new();
    push_body(&mut body, v);
    push_hex(out, body.len() as u64, 16);
    let ghost front = out@;
    let ghost bd = body@;
    out.append(&mut body);
    assert(out@ =~= old(out)@ + enc_value(v@));
}

fn push_body(out: &mut Vec<u8>, v: &Value)
    ensures
        final(out)@ == old(out)@ + value_body(v@),
{
    push_hex(out, v.type_id as u64, 8);
    push_hex(out, v.words.len() as u64, 16);
    let mut i: usize = 0;
    let ghost base = out@;
    assert(v.words@.subrange(0, 0) =~= Seq::<u64>::empty());
    while i < v.words.len()
        invariant
            i <= v.words.len(),
            out@ == base + enc_words(v.words@.subrange(0, i as int)),
        decreases v.words.len() - i,
    {
        push_hex(out, v.words[i], 16);
        assert(v.words@.subrange(0, i + 1).drop_last() =~= v.words@.subrange(0, i as int));
        i = i + 1;
        assert(out@ =~= base + enc_words(v.words@.subrange(0, i as int)));
    }
    assert(v.words@.subrange(0, i as int) =~= v.words@);
    push_hex(out, v.refs.len() as u64, 16);
    let mut j: usize = 0;
    let ghost base2 = out@;
    assert(v.refs@.subrange(0, 0) =~= Seq::<Entity>::empty());
    while j < v.refs.len()
        invariant
            j <= v.refs.len(),
            out@ == base2 + enc_refs(v.refs@.subrange(0, j as int)),
        decreases v.refs.len() - j,
    {
        push_hex(out, v.refs[j].index as u64, 8);
        push_hex(out, v.refs[j].generation as u64, 8);
        assert(v.refs@.subrange(0, j + 1).drop_last() =~= v.refs@.subrange(0, j as int));
        j = j + 1;
        assert(out@ =~= base2 + enc_refs(v.refs@.subrange(0, j as int)));
    }
    assert(v.refs@.subrange(0, j as int) =~= v.refs@);
    assert(out@ =~= old(out)@ + value_body(v@));
}

fn push_values(out: &mut Vec<u8>, s: &Vec<Value>)
    ensures
        final(out)@ == old(out)@ + enc_values(views(s@)),
{
    let mut i: usize = 0;
    let ghost base = out@;
    assert(views(s@).subrange(0, 0) =~= Seq::<ValueModel>::empty());
    while i < s.len()
        invariant
            i <= s.len(),
            out@ == base + enc_values(views(s@).subrange(0, i as int)),
        decreases s.len() - i,
    {
        push_value(out, &s[i]);
        assert(views(s@).subrange(0, i + 1).drop_last() =~= views(s@).subrange(0, i as int));
        i = i + 1;
        assert(out@ =~= base + enc_values(views(s@).subrange(0, i as int)));
    }
    assert(views(s@).subrange(0, i as int) =~= views(s@));
}

impl WorldSnapshot {
    /// The snapshot as a text document: each value encoded on its own, tagged with its type.
    pub fn to_text(&self) -> (r: Vec<u8>)
        ensures
            r@ == enc_snapshot(self@),
    {
        let mut out: Vec<u8> = Vec::new();
        push_hex(&mut out, self.entities.len() as u64, 16);
        let ghost base = out@;
        let ghost recs = record_views(self.entities@);
        assert(recs.subrange(0, 0) =~= Seq::<RecordModel>::empty());
        let mut i: usize = 0;
        while i < self.entities.len()
            invariant
                i <= self.entities.len(),
                recs == record_views(self.entities@),
                out@ == base + enc_records(recs.subrange(0, i as int)),
            decreases self.entities.len() - i,
        {
            let r: &RollbackEntity = &self.entities[i];
            push_hex(&mut out, r.entity.index as u64, 8);
            push_hex(&mut out, r.entity.generation as u64, 8);
            push_hex(&mut out, r.rollback_id.id as u64, 8);
            push_hex(&mut out, r.components.len() as u64, 16);
            push_values(&mut out, &r.components);
            assert(recs.subrange(0, i + 1).drop_last() =~= recs.subrange(0, i as int));
            i = i + 1;
            assert(out@ =~= base + enc_records(recs.subrange(0, i as int)));
        }
        assert(recs.subrange(0, i as int) =~= recs);
        push_hex(&mut out, self.resources.len() as u64, 16);
        push_values(&mut out, &self.resources);
        push_hex(&mut out, self.checksum, 16);
        assert(out@ =~= enc_snapshot(self@));
        out
    }
}

/// What went wrong with one value.
#[derive(Clone, Copy, Debug, PartialEq, Eq, Structural)]
pub enum ValueFault {
    /// The value names a type the registry does not know.
    Unregistered,
    /// The value's body is not a value.
    Malformed,
}

/// Why a text could not be read as a snapshot.
#[derive(Clone, Copy, Debug, PartialEq, Eq, Structural)]
pub enum DecodeError {
    /// The document around the values is not a snapshot document.
    Malformed,
    /// Component `index` of record `record` could not be read.
    Component { record: usize, index: usize, fault: ValueFault },
    /// Resource `index` could not be read.
    Resource { index: usize, fault: ValueFault },
}

pub open spec fn is_hex_digit(c: u8) -> bool {
    (48 <= c <= 57) || (97 <= c <= 102)
}

pub open spec fn pow16(w: nat) -> nat
    decreases w,
{
    if w == 0 {
        1
    } else {
        16 * pow16((w - 1) as nat)
    }
}

/// Every length in a value fits the 64-bit field it is written in.
pub open spec fn value_fits(v: ValueModel) -> bool {
    v.words.len() < pow16(16) && v.refs.len() < pow16(16) && value_body(v).len() < pow16(16)
}

pub open spec fn values_fit(s: Seq<ValueModel>) -> bool {
    s.len() < pow16(16) && forall|i: int| 0 <= i < s.len() ==> value_fits(#[trigger] s[i])
}

/// Every length in a snapshot fits the 64-bit field it is written in.
pub open spec fn snapshot_fits(m: SnapshotModel) -> bool {
    m.entities.len() < pow16(16) && values_fit(m.resources) && forall|k: int|
        0 <= k < m.entities.len() ==> values_fit(#[trigger] m.entities[k].components)
}

/// Every value of the list names a registered type.
pub open spec fn all_registered(s: Seq<ValueModel>, reg: Seq<crate::registry::Registration>) -> bool {
    forall|i: int| 0 <= i < s.len() ==> is_registered(reg, #[trigger] s[i].type_id)
}

/// Every value of the snapshot names a registered type.
pub open spec fn snapshot_registered(m: SnapshotModel, reg: Seq<crate::registry::Registration>) -> bool {
    all_registered(m.resources, reg) && forall|k: int|
        0 <= k < m.entities.len() ==> all_registered(#[trigger] m.entities[k].components, reg)
}

/// The error names a value of `m` whose type is not registered.
pub open spec fn names_unregistered(
    m: SnapshotModel,
    e: DecodeError,
    reg: Seq<crate::registry::Registration>,
) -> bool {
    match e {
        DecodeError::Component { record, index, fault } => fault == ValueFault::Unregistered
            && record < m.entities.len() && index < m.entities[record as int].components.len()
            && !is_registered(reg, m.entities[record as int].components[index as int].type_id),
        DecodeError::Resource { index, fault } => fault == ValueFault::Unregistered && index
            < m.resources.len() && !is_registered(reg, m.resources[index as int].type_id),
        DecodeError::Malformed => false,
    }
}

proof fn lemma_enc_hex(v: nat, w: nat)
    ensures
        enc_hex(v, w).len() == w,
        forall|k: int| 0 <= k < w ==> is_hex_digit(#[trigger] enc_hex(v, w)[k]),
    decreases w,
{
    if w > 0 {
        lemma_enc_hex(v / 16, (w - 1) as nat);
        let p = enc_hex(v / 16, (w - 1) as nat);
        assert forall|k: int| 0 <= k < w implies is_hex_digit(#[trigger] enc_hex(v, w)[k]) by {
            if k < w - 1 {
                assert(enc_hex(v, w)[k] == p[k]);
            }
        }
    }
}

proof fn lemma_enc_hex_injective(x: nat, y: nat, w: nat)
    requires
        x < pow16(w),
        y < pow16(w),
        enc_hex(x, w) == enc_hex(y, w),
    ensures
        x == y,
    decreases w,
{
    if w > 0 {
        let p = pow16((w - 1) as nat);
        assert(x / 16 < p) by (nonlinear_arith)
            requires
                x < 16 * p,
        ;
        assert(y / 16 < p) by (nonlinear_arith)
            requires
                y < 16 * p,
        ;
        let ex = enc_hex(x, w);
        let ey = enc_hex(y, w);
        assert(ex.drop_last() =~= enc_hex(x / 16, (w - 1) as nat));
        assert(ey.drop_last() =~= enc_hex(y / 16, (w - 1) as nat));
        lemma_enc_hex_injective(x / 16, y / 16, (w - 1) as nat);
        assert(ex.last() == ey.last());
        assert(x % 16 == y % 16);
        vstd::arithmetic::div_mod::lemma_fundamental_div_mod(x as int, 16);
        vstd::arithmetic::div_mod::lemma_fundamental_div_mod(y as int, 16);
    }
}

proof fn lemma_pow16_mono(a: nat, b: nat)
    requires
        a <= b,
    ensures
        pow16(a) <= pow16(b),
    decreases b,
{
    if a < b {
        lemma_pow16_mono(a, (b - 1) as nat);
    }
}

proof fn lemma_pow16_values()
    ensures
        pow16(8) == 0x1_0000_0000,
        pow16(16) == 0x1_0000_0000_0000_0000,
{
    reveal_with_fuel(pow16, 17);
}

/// Reads `w` hexadecimal digits at `pos`.
fn read_hex(b: &Vec<u8>, pos: usize, w: usize) -> (r: Option<u64>)
    requires
        w <= 16,
    ensures
        r matches Some(x) ==> pos + w <= b@.len() && b@.subrange(pos as int, pos + w) == enc_hex(
            x as nat,
            w as nat,
        ),
        forall|x: nat|
            x < pow16(w as nat) && pos + w <= b@.len() && b@.subrange(pos as int, pos + w)
                == #[trigger] enc_hex(x, w as nat) ==> r == Some(x as u64),
{
    let blen = b.len();
    if pos > blen || w > blen - pos {
        proof {
            assert forall|x: nat|
                x < pow16(w as nat) && pos + w <= b@.len() && b@.subrange(pos as int, pos + w)
                    == #[trigger] enc_hex(x, w as nat) implies None::<u64> == Some(x as u64) by {}
        }
        return None;
    }
    proof {
        lemma_pow16_values();
    }
    let mut x: u64 = 0;
    let mut i: usize = 0;
    while i < w
        invariant
            i <= w <= 16,
            pos + w <= blen,
            blen == b@.len(),
            pow16(16) == 0x1_0000_0000_0000_0000,
            x < pow16(i as nat),
            b@.subrange(pos as int, pos + i) == enc_hex(x as nat, i as nat),
        decreases w - i,
    {
        let c = b[pos + i];
        let d: u64 = if 48 <= c && c <= 57 {
            (c - 48) as u64
        } else if 97 <= c && c <= 102 {
            (c - 87) as u64
        } else {
            proof {
                assert forall|y: nat|
                    y < pow16(w as nat) && pos + w <= b@.len() && b@.subrange(pos as int, pos + w)
                        == #[trigger] enc_hex(y, w as nat) implies None::<u64> == Some(y as u64) by {
                    lemma_enc_hex(y, w as nat);
                    assert(b@.subrange(pos as int, pos + w)[i as int] == c);
                    assert(is_hex_digit(enc_hex(y, w as nat)[i as int]));
                }
            }
            return None;
        };
        proof {
            lemma_pow16_mono(i as nat + 1, 16);
            let y = x * 16 + d;
            vstd::arithmetic::div_mod::lemma_fundamental_div_mod_converse(y as int, 16, x as int, d as int);
            assert(b@.subrange(pos as int, pos + i + 1) =~= b@.subrange(pos as int, pos + i).push(c));
        }
        x = x * 16 + d;
        i = i + 1;
    }
    proof {
        assert forall|y: nat|
            y < pow16(w as nat) && pos + w <= b@.len() && b@.subrange(pos as int, pos + w)
                == #[trigger] enc_hex(y, w as nat) implies Some(x) == Some(y as u64) by {
            lemma_enc_hex_injective(x as nat, y, w as nat);
        }
    }
    Some(x)
}

proof fn lemma_enc_seq_concat<A>(a: Seq<A>, b: Seq<A>, f: spec_fn(A) -> Seq<u8>)
    ensures
        enc_seq(a + b, f) == enc_seq(a, f) + enc_seq(b, f),
    decreases b.len(),
{
    if b.len() == 0 {
        assert(a + b =~= a);
        assert(enc_seq(a, f) + enc_seq(b, f) =~= enc_seq(a, f));
    } else {
        lemma_enc_seq_concat(a, b.drop_last(), f);
        assert((a + b).drop_last() =~= a + b.drop_last());
        assert(enc_seq(a, f) + (enc_seq(b.drop_last(), f) + f(b.last())) =~= (enc_seq(a, f)
            + enc_seq(b.drop_last(), f)) + f(b.last()));
    }
}

proof fn lemma_enc_seq_split<A>(s: Seq<A>, i: int, f: spec_fn(A) -> Seq<u8>)
    requires
        0 <= i < s.len(),
    ensures
        enc_seq(s, f) == enc_seq(s.subrange(0, i), f) + f(s[i]) + enc_seq(
            s.subrange(i + 1, s.len() as int),
            f,
        ),
{
    let a = s.subrange(0, i);
    let one = seq![s[i]];
    let c = s.subrange(i + 1, s.len() as int);
    assert(s =~= a + one + c);
    lemma_enc_seq_concat(a + one, c, f);
    lemma_enc_seq_concat(a, one, f);
    assert(one.drop_last() =~= Seq::<A>::empty());
    assert(one.last() == s[i]);
    assert(enc_seq(one.drop_last(), f) == Seq::<u8>::empty());
    assert(enc_seq(one, f) == enc_seq(one.drop_last(), f) + f(one.last()));
    assert(enc_seq(one, f) =~= f(s[i]));
}

proof fn lemma_enc_seq_step<A>(s: Seq<A>, i: int, f: spec_fn(A) -> Seq<u8>)
    requires
        0 <= i < s.len(),
    ensures
        enc_seq(s.subrange(0, i + 1), f) == enc_seq(s.subrange(0, i), f) + f(s[i]),
{
    assert(s.subrange(0, i + 1).drop_last() =~= s.subrange(0, i));
}

proof fn lemma_words_len(s: Seq<u64>)
    ensures
        enc_words(s).len() == 16 * s.len(),
    decreases s.len(),
{
    if s.len() > 0 {
        lemma_words_len(s.drop_last());
        lemma_enc_hex(s.last() as nat, 16);
    }
}

proof fn lemma_refs_len(s: Seq<Entity>)
    ensures
        enc_refs(s).len() == 16 * s.len(),
    decreases s.len(),
{
    if s.len() > 0 {
        lemma_refs_len(s.drop_last());
        lemma_enc_hex(s.last().index as nat, 8);
        lemma_enc_hex(s.last().generation as nat, 8);
    }
}

/// Where the parts of a value's body lie.
proof fn lemma_body_layout(v: ValueModel)
    ensures
        value_body(v).len() == 40 + 16 * (v.words.len() as int) + 16 * (v.refs.len() as int),
        value_body(v).subrange(0, 8) == enc_u32(v.type_id),
        value_body(v).subrange(8, 24) == enc_hex(v.words.len(), 16),
        value_body(v).subrange(24 + 16 * (v.words.len() as int), 40 + 16 * (v.words.len() as int)) == enc_hex(
            v.refs.len(),
            16,
        ),
        forall|i: int|
            0 <= i < v.words.len() ==> value_body(v).subrange(24 + 16 * i, 40 + 16 * i) == enc_u64(
                #[trigger] v.words[i],
            ),
        forall|j: int|
            0 <= j < v.refs.len() ==> value_body(v).subrange(
                40 + 16 * (v.words.len() as int) + 16 * j,
                48 + 16 * (v.words.len() as int) + 16 * j,
            ) == enc_u32((#[trigger] v.refs[j]).index) && value_body(v).subrange(
                48 + 16 * (v.words.len() as int) + 16 * j,
                56 + 16 * (v.words.len() as int) + 16 * j,
            ) == enc_u32(v.refs[j].generation),
{
    let u = enc_u32(v.type_id);
    let n = enc_hex(v.words.len(), 16);
    let w = enc_words(v.words);
    let m = enc_hex(v.refs.len(), 16);
    let r = enc_refs(v.refs);
    lemma_enc_hex(v.type_id as nat, 8);
    lemma_enc_hex(v.words.len(), 16);
    lemma_enc_hex(v.refs.len(), 16);
    lemma_words_len(v.words);
    lemma_refs_len(v.refs);
    let body = value_body(v);
    assert(body == u + n + w + m + r);
    assert(body.subrange(0, 8) =~= u);
    assert(body.subrange(8, 24) =~= n);
    let nw = v.words.len() as int;
    assert(body.subrange(24 + 16 * nw, 40 + 16 * nw) =~= m);
    assert forall|i: int| 0 <= i < v.words.len() implies value_body(v).subrange(24 + 16 * i, 40 + 16 * i)
        == enc_u64(#[trigger] v.words[i]) by {
        lemma_enc_seq_split(v.words, i, |x: u64| enc_u64(x));
        lemma_words_len(v.words.subrange(0, i));
        lemma_enc_hex(v.words[i] as nat, 16);
        let a = enc_words(v.words.subrange(0, i));
        let e = enc_u64(v.words[i]);
        let c = enc_words(v.words.subrange(i + 1, nw));
        assert(w == a + e + c);
        assert(body.subrange(24 + 16 * i, 40 + 16 * i) =~= e);
    }
    assert forall|j: int| 0 <= j < v.refs.len() implies value_body(v).subrange(
        40 + 16 * (v.words.len() as int) + 16 * j,
        48 + 16 * (v.words.len() as int) + 16 * j,
    ) == enc_u32((#[trigger] v.refs[j]).index) && value_body(v).subrange(
        48 + 16 * (v.words.len() as int) + 16 * j,
        56 + 16 * (v.words.len() as int) + 16 * j,
    ) == enc_u32(v.refs[j].generation) by {
        lemma_enc_seq_split(v.refs, j, |e: Entity| enc_entity(e));
        lemma_refs_len(v.refs.subrange(0, j));
        lemma_enc_hex(v.refs[j].index as nat, 8);
        lemma_enc_hex(v.refs[j].generation as nat, 8);
        let a = enc_refs(v.refs.subrange(0, j));
        let e1 = enc_u32(v.refs[j].index);
        let e2 = enc_u32(v.refs[j].generation);
        let c = enc_refs(v.refs.subrange(j + 1, v.refs.len() as int));
        assert(r == a + (e1 + e2) + c);
        assert(body.subrange(40 + 16 * nw + 16 * j, 48 + 16 * nw + 16 * j) =~= e1);
        assert(body.subrange(48 + 16 * nw + 16 * j, 56 + 16 * nw + 16 * j) =~= e2);
    }
}

fn read_u32(b: &Vec<u8>, pos: usize) -> (r: Option<u32>)
    ensures
        r matches Some(x) ==> pos + 8 <= b@.len() && b@.subrange(pos as int, pos + 8) == enc_u32(x),
        forall|x: u32|
            pos + 8 <= b@.len() && b@.subrange(pos as int, pos + 8) == #[trigger] enc_u32(x) ==> r
                == Some(x),
{
    proof {
        lemma_pow16_values();
    }
    match read_hex(b, pos, 8) {
        Some(x) => {
            if x > u32::MAX as u64 {
                proof {
                    assert forall|y: u32|
                        pos + 8 <= b@.len() && b@.subrange(pos as int, pos + 8) == #[trigger] enc_u32(
                            y,
                        ) implies None::<u32> == Some(y) by {
                        assert(enc_hex(y as nat, 8) == enc_u32(y));
                    }
                }
                None
            } else {
                Some(x as u32)
            }
        },
        None => {
            proof {
                assert forall|y: u32|
                    pos + 8 <= b@.len() && b@.subrange(pos as int, pos + 8) == #[trigger] enc_u32(
                        y,
                    ) implies None::<u32> == Some(y) by {
                    assert(enc_hex(y as nat, 8) == enc_u32(y));
                }
            }
            None
        },
    }
}

/// The bytes from `pos` to `end` are the body of value `v`.
pub open spec fn body_here(b: Seq<u8>, pos: int, end: int, v: ValueModel) -> bool {
    value_fits(v) && 0 <= pos <= end <= b.len() && b.subrange(pos, end) == value_body(v)
}

proof fn lemma_body_at(b: Seq<u8>, pos: int, end: int, v: ValueModel)
    requires
        body_here(b, pos, end, v),
    ensures
        end == pos + 40 + 16 * (v.words.len() as int) + 16 * (v.refs.len() as int),
        b.subrange(pos, pos + 8) == enc_u32(v.type_id),
        b.subrange(pos + 8, pos + 24) == enc_hex(v.words.len(), 16),
        b.subrange(pos + 24 + 16 * (v.words.len() as int), pos + 40 + 16 * (v.words.len() as int))
            == enc_hex(v.refs.len(), 16),
        forall|i: int|
            0 <= i < v.words.len() ==> b.subrange(pos + 24 + 16 * i, pos + 40 + 16 * i) == enc_u64(
                #[trigger] v.words[i],
            ),
        forall|j: int|
            0 <= j < v.refs.len() ==> b.subrange(
                pos + 40 + 16 * (v.words.len() as int) + 16 * j,
                pos + 48 + 16 * (v.words.len() as int) + 16 * j,
            ) == enc_u32((#[trigger] v.refs[j]).index) && b.subrange(
                pos + 48 + 16 * (v.words.len() as int) + 16 * j,
                pos + 56 + 16 * (v.words.len() as int) + 16 * j,
            ) == enc_u32(v.refs[j].generation),
{
    lemma_body_layout(v);
    let body = b.subrange(pos, end);
    let nw = v.words.len() as int;
    assert(b.subrange(pos, pos + 8) =~= body.subrange(0, 8));
    assert(b.subrange(pos + 8, pos + 24) =~= body.subrange(8, 24));
    assert(b.subrange(pos + 24 + 16 * nw, pos + 40 + 16 * nw) =~= body.subrange(24 + 16 * nw, 40 + 16 * nw));
    assert forall|i: int| 0 <= i < v.words.len() implies b.subrange(pos + 24 + 16 * i, pos + 40 + 16 * i)
        == enc_u64(#[trigger] v.words[i]) by {
        assert(b.subrange(pos + 24 + 16 * i, pos + 40 + 16 * i) =~= body.subrange(24 + 16 * i, 40 + 16 * i));
    }
    assert forall|j: int| 0 <= j < v.refs.len() implies b.subrange(
        pos + 40 + 16 * nw + 16 * j,
        pos + 48 + 16 * nw + 16 * j,
    ) == enc_u32((#[trigger] v.refs[j]).index) && b.subrange(
        pos + 48 + 16 * nw + 16 * j,
        pos + 56 + 16 * nw + 16 * j,
    ) == enc_u32(v.refs[j].generation) by {
        assert(b.subrange(pos + 40 + 16 * nw + 16 * j, pos + 48 + 16 * nw + 16 * j) =~= body.subrange(
            40 + 16 * nw + 16 * j,
            48 + 16 * nw + 16 * j,
        ));
        assert(b.subrange(pos + 48 + 16 * nw + 16 * j, pos + 56 + 16 * nw + 16 * j) =~= body.subrange(
            48 + 16 * nw + 16 * j,
            56 + 16 * nw + 16 * j,
        ));
    }
}

/// Reads the body of one value lying between `pos` and `end`.
fn read_body(b: &Vec<u8>, pos: usize, end: usize, registry: &TypeRegistry) -> (r: Result<Value, ValueFault>)
    requires
        pos <= end <= b@.len(),
    ensures
        r matches Ok(v) ==> b@.subrange(pos as int, end as int) == value_body(v@) && is_registered(
            registry.registrations@,
            v.type_id,
        ),
        forall|mv: ValueModel|
            #[trigger] body_here(b@, pos as int, end as int, mv) ==> if is_registered(
                registry.registrations@,
                mv.type_id,
            ) {
                r matches Ok(v) && v@ == mv
            } else {
                r == Err::<Value, ValueFault>(ValueFault::Unregistered)
            },
{
    let blen = b.len();
    proof {
        lemma_pow16_values();
        assert forall|mv: ValueModel| #[trigger] body_here(b@, pos as int, end as int, mv) implies pos
            + 8 <= b@.len() by {
            lemma_body_at(b@, pos as int, end as int, mv);
        }
    }
    let type_id = match read_u32(b, pos) {
        Some(t) => t,
        None => {
            proof {
                assert forall|mv: ValueModel| #[trigger] body_here(b@, pos as int, end as int, mv)
                    implies false by {
                    lemma_body_at(b@, pos as int, end as int, mv);
                }
            }
            return Err(ValueFault::Malformed);
        },
    };
    proof {
        assert forall|mv: ValueModel| #[trigger] body_here(b@, pos as int, end as int, mv)
            implies mv.type_id == type_id by {
            lemma_body_at(b@, pos as int, end as int, mv);
        }
    }
    if !registry.contains(type_id) {
        return Err(ValueFault::Unregistered);
    }
    let n = match read_hex(b, pos + 8, 16) {
        Some(n) => n,
        None => {
            proof {
                assert forall|mv: ValueModel| #[trigger] body_here(b@, pos as int, end as int, mv)
                    implies false by {
                    lemma_body_at(b@, pos as int, end as int, mv);
                }
            }
            return Err(ValueFault::Malformed);
        },
    };
    proof {
        assert forall|mv: ValueModel| #[trigger] body_here(b@, pos as int, end as int, mv)
            implies mv.words.len() == n by {
            lemma_body_at(b@, pos as int, end as int, mv);
        }
    }
    let mut at = pos + 24;
    let mut words: Vec<u64> = Vec::new();
    let mut i: u64 = 0;
    let ghost start = at;
    while i < n
        invariant
            pos + 24 == start <= at <= b@.len(),
            blen == b@.len(),
            pow16(16) == 0x1_0000_0000_0000_0000,
            words@.len() == i,
            i <= n,
            at == start + 16 * i,
            b@.subrange(start as int, at as int) == enc_words(words@),
            forall|mv: ValueModel| #[trigger] body_here(b@, pos as int, end as int, mv) ==> mv.type_id
                == type_id && mv.words.len() == n && words@ == mv.words.subrange(0, i as int),
        decreases n - i,
    {
        let x = match read_hex(b, at, 16) {
            Some(x) => x,
            None => {
                proof {
                    assert forall|mv: ValueModel| #[trigger] body_here(b@, pos as int, end as int, mv)
                        implies false by {
                        lemma_body_at(b@, pos as int, end as int, mv);
                        assert(b@.subrange(at as int, at + 16) == enc_hex(mv.words[i as int] as nat, 16));
                    }
                }
                return Err(ValueFault::Malformed);
            },
        };
        proof {
            assert forall|mv: ValueModel| #[trigger] body_here(b@, pos as int, end as int, mv)
                implies words@.push(x) == mv.words.subrange(0, i + 1) by {
                lemma_body_at(b@, pos as int, end as int, mv);
                assert(mv.words[i as int] == mv.words[i as int]);
                assert(words@.push(x) =~= mv.words.subrange(0, i + 1));
            }
            lemma_enc_seq_step(words@.push(x), i as int, |y: u64| enc_u64(y));
            assert(words@.push(x).subrange(0, i as int) =~= words@);
            assert(words@.push(x).subrange(0, i + 1) =~= words@.push(x));
            assert(b@.subrange(start as int, at + 16) =~= b@.subrange(start as int, at as int)
                + b@.subrange(at as int, at + 16));
        }
        words.push(x);
        at = at + 16;
        i = i + 1;
    }
    proof {
        assert forall|mv: ValueModel| #[trigger] body_here(b@, pos as int, end as int, mv)
            implies words@ == mv.words by {
            assert(mv.words.subrange(0, i as int) =~= mv.words);
        }
    }
    let ghost mid = at;
    let m = match read_hex(b, at, 16) {
        Some(m) => m,
        None => {
            proof {
                assert forall|mv: ValueModel| #[trigger] body_here(b@, pos as int, end as int, mv)
                    implies false by {
                    lemma_body_at(b@, pos as int, end as int, mv);
                }
            }
            return Err(ValueFault::Malformed);
        },
    };
    proof {
        assert forall|mv: ValueModel| #[trigger] body_here(b@, pos as int, end as int, mv)
            implies mv.refs.len() == m by {
            lemma_body_at(b@, pos as int, end as int, mv);
        }
    }
    at = at + 16;
    let mut refs: Vec<Entity> = Vec::new();
    let mut j: u64 = 0;
    let ghost start2 = at;
    while j < m
        invariant
            mid + 16 == start2 <= at <= b@.len(),
            mid == start + 16 * n,
            pos + 24 == start,
            blen == b@.len(),
            refs@.len() == j,
            j <= m,
            at == start2 + 16 * j,
            b@.subrange(start2 as int, at as int) == enc_refs(refs@),
            forall|mv: ValueModel| #[trigger] body_here(b@, pos as int, end as int, mv) ==> mv.type_id
                == type_id && mv.words == words@ && mv.words.len() == n && mv.refs.len() == m
                && refs@ == mv.refs.subrange(0, j as int),
        decreases m - j,
    {
        let index = match read_u32(b, at) {
            Some(x) => x,
            None => {
                proof {
                    assert forall|mv: ValueModel| #[trigger] body_here(b@, pos as int, end as int, mv)
                        implies false by {
                        lemma_body_at(b@, pos as int, end as int, mv);
                        assert(b@.subrange(at as int, at + 8) == enc_u32(mv.refs[j as int].index));
                    }
                }
                return Err(ValueFault::Malformed);
            },
        };
        let generation = match read_u32(b, at + 8) {
            Some(x) => x,
            None => {
                proof {
                    assert forall|mv: ValueModel| #[trigger] body_here(b@, pos as int, end as int, mv)
                        implies false by {
                        lemma_body_at(b@, pos as int, end as int, mv);
                        assert(b@.subrange(at + 8, at + 16) == enc_u32(mv.refs[j as int].generation));
                    }
                }
                return Err(ValueFault::Malformed);
            },
        };
        let e = Entity { index, generation };
        proof {
            assert forall|mv: ValueModel| #[trigger] body_here(b@, pos as int, end as int, mv)
                implies refs@.push(e) == mv.refs.subrange(0, j + 1) by {
                lemma_body_at(b@, pos as int, end as int, mv);
                assert(mv.refs[j as int] == mv.refs[j as int]);
                assert(refs@.push(e) =~= mv.refs.subrange(0, j + 1));
            }
            lemma_enc_seq_step(refs@.push(e), j as int, |y: Entity| enc_entity(y));
            assert(refs@.push(e).subrange(0, j as int) =~= refs@);
            assert(refs@.push(e).subrange(0, j + 1) =~= refs@.push(e));
            assert(b@.subrange(start2 as int, at + 16) =~= b@.subrange(start2 as int, at as int)
                + b@.subrange(at as int, at + 8) + b@.subrange(at + 8, at + 16));
        }
        refs.push(e);
        at = at + 16;
        j = j + 1;
    }
    proof {
        assert forall|mv: ValueModel| #[trigger] body_here(b@, pos as int, end as int, mv)
            implies refs@ == mv.refs && at == end by {
            lemma_body_at(b@, pos as int, end as int, mv);
            assert(mv.refs.subrange(0, j as int) =~= mv.refs);
        }
    }
    if at != end {
        return Err(ValueFault::Malformed);
    }
    let v = Value { type_id, words, refs };
    proof {
        assert(b@.subrange(pos as int, at as int) =~= b@.subrange(pos as int, pos + 8)
            + b@.subrange(pos + 8, pos + 24) + b@.subrange(start as int, mid as int)
            + b@.subrange(mid as int, mid + 16) + b@.subrange(start2 as int, at as int));
        assert forall|mv: ValueModel| #[trigger] body_here(b@, pos as int, end as int, mv)
            implies v@ == mv by {
            assert(v@ =~= mv);
        }
    }
    Ok(v)
}

/// The bytes at `pos` are the encoding of value `v`.
pub open spec fn value_here(b: Seq<u8>, pos: int, v: ValueModel) -> bool {
    value_fits(v) && 0 <= pos && pos + enc_value(v).len() <= b.len() && b.subrange(
        pos,
        pos + enc_value(v).len(),
    ) == enc_value(v)
}

/// The bytes at `pos` are the encodings of the values `s`, one after another.
pub open spec fn values_here(b: Seq<u8>, pos: int, s: Seq<ValueModel>) -> bool {
    values_fit(s) && 0 <= pos && pos + enc_values(s).len() <= b.len() && b.subrange(
        pos,
        pos + enc_values(s).len(),
    ) == enc_values(s)
}

/// Reads one length-prefixed value at `pos`, and where it ends. `Err(None)`: the value cannot
/// be delimited; `Err(Some(f))`: its body is at fault.
fn read_value(b: &Vec<u8>, pos: usize, registry: &TypeRegistry) -> (r: Result<
    (Value, usize),
    Option<ValueFault>,
>)
    ensures
        r matches Ok((v, end)) ==> pos <= end <= b@.len() && b@.subrange(pos as int, end as int)
            == enc_value(v@) && is_registered(registry.registrations@, v.type_id),
        forall|mv: ValueModel| #[trigger]
            value_here(b@, pos as int, mv) ==> if is_registered(registry.registrations@, mv.type_id) {
                r matches Ok((v, end)) && v@ == mv && end == pos + enc_value(mv).len()
            } else {
                r == Err::<(Value, usize), Option<ValueFault>>(Some(ValueFault::Unregistered))
            },
{
    let blen = b.len();
    proof {
        lemma_pow16_values();
        assert forall|mv: ValueModel| #[trigger] value_here(b@, pos as int, mv) implies b@.subrange(
            pos as int,
            pos + 16,
        ) == enc_hex(value_body(mv).len(), 16) && body_here(
            b@,
            pos + 16,
            pos + 16 + value_body(mv).len(),
            mv,
        ) by {
            lemma_enc_hex(value_body(mv).len(), 16);
            let e = enc_value(mv);
            let h = enc_hex(value_body(mv).len(), 16);
            assert(e == h + value_body(mv));
            assert(e.subrange(0, 16) =~= h);
            assert(e.subrange(16, e.len() as int) =~= value_body(mv));
            assert(b@.subrange(pos as int, pos + 16) =~= e.subrange(0, 16));
            assert(b@.subrange(pos + 16, pos + 16 + value_body(mv).len()) =~= e.subrange(
                16,
                e.len() as int,
            ));
        }
    }
    let len = match read_hex(b, pos, 16) {
        Some(x) => x,
        None => return Err(None),
    };
    if pos > blen || blen - pos < 16 || len > (blen - pos - 16) as u64 {
        return Err(None);
    }
    let end = pos + 16 + len as usize;
    match read_body(b, pos + 16, end, registry) {
        Ok(v) => {
            proof {
                lemma_enc_hex(len as nat, 16);
                assert(b@.subrange(pos as int, end as int) =~= b@.subrange(pos as int, pos + 16)
                    + b@.subrange(pos + 16, end as int));
            }
            Ok((v, end))
        },
        Err(f) => Err(Some(f)),
    }
}

/// Reads `n` values at `pos`, and where they end; on failure, the index of the value at fault.
fn read_values(b: &Vec<u8>, pos: usize, n: u64, registry: &TypeRegistry) -> (r: Result<
    (Vec<Value>, usize),
    (usize, Option<ValueFault>),
>)
    requires
        pos <= b@.len(),
    ensures
        r matches Ok((vs, end)) ==> pos <= end <= b@.len() && b@.subrange(pos as int, end as int)
            == enc_values(views(vs@)) && vs@.len() == n && all_registered(
            views(vs@),
            registry.registrations@,
        ),
        forall|ms: Seq<ValueModel>| #[trigger]
            values_here(b@, pos as int, ms) && ms.len() == n ==> if all_registered(
                ms,
                registry.registrations@,
            ) {
                r matches Ok((vs, end)) && views(vs@) == ms && end == pos + enc_values(ms).len()
            } else {
                r matches Err((j, f)) && f == Some(ValueFault::Unregistered) && j < ms.len()
                    && !is_registered(registry.registrations@, ms[j as int].type_id)
            },
{
    let ghost reg = registry.registrations@;
    let mut vs: Vec<Value> = Vec::new();
    let mut at = pos;
    let mut i: u64 = 0;
    proof {
        assert forall|ms: Seq<ValueModel>| #[trigger] values_here(b@, pos as int, ms) && ms.len() == n
            implies views(vs@) == ms.subrange(0, 0) && at == pos + enc_values(ms.subrange(0, 0)).len() by {
            assert(views(vs@) =~= ms.subrange(0, 0));
            assert(ms.subrange(0, 0) =~= Seq::<ValueModel>::empty());
        }
        assert(views(vs@) =~= Seq::<ValueModel>::empty());
        assert(b@.subrange(pos as int, at as int) =~= Seq::<u8>::empty());
    }
    while i < n
        invariant
            pos <= at <= b@.len(),
            vs@.len() == i,
            i <= n,
            reg == registry.registrations@,
            b@.subrange(pos as int, at as int) == enc_values(views(vs@)),
            all_registered(views(vs@), reg),
            forall|ms: Seq<ValueModel>| #[trigger]
                values_here(b@, pos as int, ms) && ms.len() == n ==> views(vs@) == ms.subrange(
                    0,
                    i as int,
                ) && at == pos + enc_values(ms.subrange(0, i as int)).len(),
        decreases n - i,
    {
        proof {
            assert forall|ms: Seq<ValueModel>| #[trigger]
                values_here(b@, pos as int, ms) && ms.len() == n implies value_here(
                b@,
                at as int,
                ms[i as int],
            ) by {
                lemma_enc_seq_split(ms, i as int, |v: ValueModel| enc_value(v));
                let a = enc_values(ms.subrange(0, i as int));
                let e = enc_value(ms[i as int]);
                let c = enc_values(ms.subrange(i + 1, ms.len() as int));
                assert(enc_values(ms) == a + e + c);
                assert((a + e + c).subrange(a.len() as int, (a.len() + e.len()) as int) =~= e);
                assert(at == pos + a.len());
                assert(b@.subrange(at as int, at + e.len()) =~= (a + e + c).subrange(
                    a.len() as int,
                    (a.len() + e.len()) as int,
                ));
                assert(value_fits(ms[i as int]));
            }
        }
        let (v, end) = match read_value(b, at, registry) {
            Ok(x) => x,
            Err(f) => {
                return Err((i as usize, f));
            },
        };
        proof {
            lemma_views_push(vs@, v);
            assert(views(vs@).push(v@).drop_last() =~= views(vs@));
            assert(b@.subrange(pos as int, end as int) =~= b@.subrange(pos as int, at as int)
                + b@.subrange(at as int, end as int));
            assert forall|ms: Seq<ValueModel>| #[trigger]
                values_here(b@, pos as int, ms) && ms.len() == n implies views(vs@).push(v@)
                == ms.subrange(0, i + 1) && end == pos + enc_values(ms.subrange(0, i + 1)).len() by {
                lemma_enc_seq_step(ms, i as int, |v: ValueModel| enc_value(v));
                assert(views(vs@).push(v@) =~= ms.subrange(0, i + 1));
            }
        }
        vs.push(v);
        at = end;
        i = i + 1;
        assert forall|j: int| 0 <= j < views(vs@).len() implies is_registered(
            reg,
            #[trigger] views(vs@)[j].type_id,
        ) by {
            if j < i - 1 {
                assert(views(vs@)[j] == views(vs@.drop_last())[j]);
                assert(vs@.drop_last()[j] == vs@[j]);
            }
        }
    }
    proof {
        assert forall|ms: Seq<ValueModel>| #[trigger]
            values_here(b@, pos as int, ms) && ms.len() == n implies views(vs@) == ms && at == pos
            + enc_values(ms).len() by {
            assert(ms.subrange(0, i as int) =~= ms);
        }
    }
    Ok((vs, at))
}

/// The bytes at `pos` are the encoding of record `r`.
pub open spec fn record_here(b: Seq<u8>, pos: int, r: RecordModel) -> bool {
    values_fit(r.components) && 0 <= pos && pos + enc_record(r).len() <= b.len() && b.subrange(
        pos,
        pos + enc_record(r).len(),
    ) == enc_record(r)
}

proof fn lemma_record_at(b: Seq<u8>, pos: int, r: RecordModel)
    requires
        record_here(b, pos, r),
    ensures
        enc_record(r).len() == 40 + enc_values(r.components).len(),
        b.subrange(pos, pos + 8) == enc_u32(r.entity.index),
        b.subrange(pos + 8, pos + 16) == enc_u32(r.entity.generation),
        b.subrange(pos + 16, pos + 24) == enc_u32(r.rollback_id.id),
        b.subrange(pos + 24, pos + 40) == enc_hex(r.components.len(), 16),
        values_here(b, pos + 40, r.components),
{
    let e = enc_record(r);
    let a1 = enc_u32(r.entity.index);
    let a2 = enc_u32(r.entity.generation);
    let a3 = enc_u32(r.rollback_id.id);
    let a4 = enc_hex(r.components.len(), 16);
    let v = enc_values(r.components);
    lemma_enc_hex(r.entity.index as nat, 8);
    lemma_enc_hex(r.entity.generation as nat, 8);
    lemma_enc_hex(r.rollback_id.id as nat, 8);
    lemma_enc_hex(r.components.len(), 16);
    assert(e =~= a1 + a2 + a3 + a4 + v);
    assert(b.subrange(pos, pos + 8) =~= e.subrange(0, 8));
    assert(e.subrange(0, 8) =~= a1);
    assert(b.subrange(pos + 8, pos + 16) =~= e.subrange(8, 16));
    assert(e.subrange(8, 16) =~= a2);
    assert(b.subrange(pos + 16, pos + 24) =~= e.subrange(16, 24));
    assert(e.subrange(16, 24) =~= a3);
    assert(b.subrange(pos + 24, pos + 40) =~= e.subrange(24, 40));
    assert(e.subrange(24, 40) =~= a4);
    assert(b.subrange(pos + 40, pos + 40 + v.len()) =~= e.subrange(40, e.len() as int));
    assert(e.subrange(40, e.len() as int) =~= v);
}

proof fn lemma_snapshot_at(b: Seq<u8>, m: SnapshotModel)
    requires
        enc_snapshot(m) == b,
        snapshot_fits(m),
    ensures
        b.len() == 48 + (enc_records(m.entities).len() as int) + (enc_values(m.resources).len() as int),
        b.subrange(0, 16) == enc_hex(m.entities.len(), 16),
        b.subrange(16, 16 + (enc_records(m.entities).len() as int)) == enc_records(m.entities),
        b.subrange(16 + (enc_records(m.entities).len() as int), 32 + (enc_records(m.entities).len() as int))
            == enc_hex(m.resources.len(), 16),
        values_here(b, 32 + (enc_records(m.entities).len() as int), m.resources),
        b.subrange(b.len() - 16, b.len() as int) == enc_u64(m.checksum),
{
    let h = enc_hex(m.entities.len(), 16);
    let rs = enc_records(m.entities);
    let k = enc_hex(m.resources.len(), 16);
    let v = enc_values(m.resources);
    let c = enc_u64(m.checksum);
    lemma_enc_hex(m.entities.len(), 16);
    lemma_enc_hex(m.resources.len(), 16);
    lemma_enc_hex(m.checksum as nat, 16);
    assert(b =~= h + rs + k + v + c);
    assert(b.subrange(0, 16) =~= h);
    assert(b.subrange(16, 16 + (rs.len() as int)) =~= rs);
    assert(b.subrange(16 + (rs.len() as int), 32 + (rs.len() as int)) =~= k);
    assert(b.subrange(32 + (rs.len() as int), 32 + (rs.len() as int) + (v.len() as int)) =~= v);
    assert(b.subrange(b.len() - 16, b.len() as int) =~= c);
}

/// Record `i` of `m` lies at `at` when the records before it end there.
proof fn lemma_record_in(b: Seq<u8>, m: SnapshotModel, i: int, at: int)
    requires
        enc_snapshot(m) == b,
        snapshot_fits(m),
        0 <= i < m.entities.len(),
        at == 16 + enc_records(m.entities.subrange(0, i)).len(),
    ensures
        record_here(b, at, m.entities[i]),
        16 + enc_records(m.entities.subrange(0, i + 1)).len() == at + enc_record(m.entities[i]).len(),
{
    lemma_snapshot_at(b, m);
    let es = m.entities;
    lemma_enc_seq_split(es, i, |r: RecordModel| enc_record(r));
    lemma_enc_seq_step(es, i, |r: RecordModel| enc_record(r));
    let a = enc_records(es.subrange(0, i));
    let e = enc_record(es[i]);
    let c = enc_records(es.subrange(i + 1, es.len() as int));
    let rs = enc_records(es);
    assert(rs == a + e + c);
    assert(b.subrange(at, at + (e.len() as int)) =~= b.subrange(16, 16 + (rs.len() as int)).subrange(
        a.len() as int,
        (a.len() as int) + (e.len() as int),
    ));
    assert((a + e + c).subrange(a.len() as int, (a.len() as int) + (e.len() as int)) =~= e);
    assert(values_fit(es[i].components));
}

/// Reads one record at `pos`, and where it ends. `Err(Some((j, f)))`: component `j` is at
/// fault; `Err(None)`: the record cannot be read.
fn read_record(b: &Vec<u8>, pos: usize, registry: &TypeRegistry) -> (r: Result<
    (RollbackEntity, usize),
    Option<(usize, ValueFault)>,
>)
    requires
        pos <= b@.len(),
    ensures
        r matches Ok((rec, end)) ==> pos <= end <= b@.len() && b@.subrange(pos as int, end as int)
            == enc_record(rec@) && all_registered(rec@.components, registry.registrations@),
        forall|m: RecordModel| #[trigger]
            record_here(b@, pos as int, m) ==> if all_registered(m.components, registry.registrations@) {
                r matches Ok((rec, end)) && rec@ == m && end == pos + enc_record(m).len()
            } else {
                r matches Err(Some((j, f))) && f == ValueFault::Unregistered && j < m.components.len()
                    && !is_registered(registry.registrations@, m.components[j as int].type_id)
            },
{
    let blen = b.len();
    proof {
        lemma_pow16_values();
    }
    let index = match read_u32(b, pos) {
        Some(x) => x,
        None => {
            proof {
                assert forall|m: RecordModel| #[trigger] record_here(b@, pos as int, m) implies false by {
                    lemma_record_at(b@, pos as int, m);
                }
            }
            return Err(None);
        },
    };
    let generation = match read_u32(b, pos + 8) {
        Some(x) => x,
        None => {
            proof {
                assert forall|m: RecordModel| #[trigger] record_here(b@, pos as int, m) implies false by {
                    lemma_record_at(b@, pos as int, m);
                }
            }
            return Err(None);
        },
    };
    let id = match read_u32(b, pos + 16) {
        Some(x) => x,
        None => {
            proof {
                assert forall|m: RecordModel| #[trigger] record_here(b@, pos as int, m) implies false by {
                    lemma_record_at(b@, pos as int, m);
                }
            }
            return Err(None);
        },
    };
    let count = match read_hex(b, pos + 24, 16) {
        Some(x) => x,
        None => {
            proof {
                assert forall|m: RecordModel| #[trigger] record_here(b@, pos as int, m) implies false by {
                    lemma_record_at(b@, pos as int, m);
                }
            }
            return Err(None);
        },
    };
    proof {
        assert forall|m: RecordModel| #[trigger] record_here(b@, pos as int, m) implies values_here(
            b@,
            pos + 40,
            m.components,
        ) && m.components.len() == count && m.entity == (Entity { index, generation })
            && m.rollback_id == (Rollback { id }) by {
            lemma_record_at(b@, pos as int, m);
        }
    }
    let (components, end) = match read_values(b, pos + 40, count, registry) {
        Ok(x) => x,
        Err((j, f)) => {
            return match f {
                Some(fault) => Err(Some((j, fault))),
                None => Err(None),
            };
        },
    };
    let rec = RollbackEntity { entity: Entity { index, generation }, rollback_id: Rollback { id }, components };
    proof {
        lemma_enc_hex(index as nat, 8);
        lemma_enc_hex(generation as nat, 8);
        lemma_enc_hex(id as nat, 8);
        lemma_enc_hex(count as nat, 16);
        assert(b@.subrange(pos as int, end as int) =~= b@.subrange(pos as int, pos + 8)
            + b@.subrange(pos + 8, pos + 16) + b@.subrange(pos + 16, pos + 24) + b@.subrange(
            pos + 24,
            pos + 40,
        ) + b@.subrange(pos + 40, end as int));
        assert forall|m: RecordModel| #[trigger] record_here(b@, pos as int, m) implies rec@ == m
            && end == pos + enc_record(m).len() by {
            lemma_record_at(b@, pos as int, m);
            assert(rec@ =~= m);
        }
    }
    Ok((rec, end))
}

impl WorldSnapshot {
    /// Reads a snapshot back from its text. Every text that encodes a snapshot whose values are
    /// all registered decodes to that snapshot; where a value names an unregistered type the
    /// error says which value; `Malformed` means that no snapshot has this text.
    #[verifier::rlimit(100)]
    pub fn from_text(b: &Vec<u8>, registry: &TypeRegistry) -> (r: Result<WorldSnapshot, DecodeError>)
        ensures
            r matches Ok(s) ==> enc_snapshot(s@) == b@ && snapshot_registered(
                s@,
                registry.registrations@,
            ),
            forall|m: SnapshotModel|
                #[trigger] enc_snapshot(m) == b@ && snapshot_fits(m) ==> if snapshot_registered(
                    m,
                    registry.registrations@,
                ) {
                    r matches Ok(s) && s@ == m
                } else {
                    r matches Err(e) && names_unregistered(m, e, registry.registrations@)
                },
            r == Err::<WorldSnapshot, DecodeError>(DecodeError::Malformed) ==> forall|m: SnapshotModel|
                snapshot_fits(m) ==> #[trigger] enc_snapshot(m) != b@,
    {
        let ghost reg = registry.registrations@;
        let blen = b.len();
        proof {
            lemma_pow16_values();
            assert forall|m: SnapshotModel| #[trigger] enc_snapshot(m) == b@ && snapshot_fits(m)
                implies 16 <= b@.len() && b@.subrange(0, 16) == enc_hex(m.entities.len(), 16) by {
                lemma_snapshot_at(b@, m);
            }
        }
        let n = match read_hex(b, 0, 16) {
            Some(n) => n,
            None => return Err(DecodeError::Malformed),
        };
        let mut at: usize = 16;
        let mut entities: Vec<RollbackEntity> = Vec::new();
        let mut i: u64 = 0;
        proof {
            assert(b@.subrange(16, 16) =~= Seq::<u8>::empty());
            assert(record_views(entities@) =~= Seq::<RecordModel>::empty());
            assert forall|m: SnapshotModel| #[trigger] enc_snapshot(m) == b@ && snapshot_fits(m)
                implies record_views(entities@) == m.entities.subrange(0, 0) && at == 16 + enc_records(
                m.entities.subrange(0, 0),
            ).len() by {
                assert(m.entities.subrange(0, 0) =~= Seq::<RecordModel>::empty());
            }
        }
        while i < n
            invariant
                16 <= at <= b@.len(),
                blen == b@.len(),
                entities@.len() == i,
                i <= n,
                reg == registry.registrations@,
                b@.subrange(16, at as int) == enc_records(record_views(entities@)),
                forall|k: int|
                    0 <= k < i ==> all_registered(
                        #[trigger] record_views(entities@)[k].components,
                        reg,
                    ),
                forall|m: SnapshotModel| #[trigger] enc_snapshot(m) == b@ && snapshot_fits(m) ==> n
                    == m.entities.len() && record_views(entities@) == m.entities.subrange(0, i as int)
                    && at == 16 + enc_records(m.entities.subrange(0, i as int)).len(),
            decreases n - i,
        {
            proof {
                assert forall|m: SnapshotModel| #[trigger] enc_snapshot(m) == b@ && snapshot_fits(m)
                    implies record_here(b@, at as int, m.entities[i as int]) by {
                    lemma_record_in(b@, m, i as int, at as int);
                }
            }
            let (rec, end) = match read_record(b, at, registry) {
                Ok(x) => x,
                Err(Some((j, fault))) => {
                    return Err(DecodeError::Component { record: i as usize, index: j, fault });
                },
                Err(None) => return Err(DecodeError::Malformed),
            };
            proof {
                lemma_record_views_push(entities@, rec);
                assert(record_views(entities@).push(rec@).drop_last() =~= record_views(entities@));
                assert(b@.subrange(16, end as int) =~= b@.subrange(16, at as int) + b@.subrange(
                    at as int,
                    end as int,
                ));
                assert forall|m: SnapshotModel| #[trigger] enc_snapshot(m) == b@ && snapshot_fits(m)
                    implies record_views(entities@).push(rec@) == m.entities.subrange(0, i + 1)
                    && end == 16 + enc_records(m.entities.subrange(0, i + 1)).len() by {
                    lemma_record_in(b@, m, i as int, at as int);
                    assert(record_views(entities@).push(rec@) =~= m.entities.subrange(0, i + 1));
                }
            }
            entities.push(rec);
            at = end;
            i = i + 1;
            assert forall|k: int| 0 <= k < i implies all_registered(
                #[trigger] record_views(entities@)[k].components,
                reg,
            ) by {
                if k < i - 1 {
                    assert(record_views(entities@)[k] == record_views(entities@.drop_last())[k]);
                    assert(entities@.drop_last()[k] == entities@[k]);
                }
            }
        }
        proof {
            assert forall|m: SnapshotModel| #[trigger] enc_snapshot(m) == b@ && snapshot_fits(m)
                implies record_views(entities@) == m.entities && at == 16 + enc_records(m.entities).len()
                && b@.subrange(at as int, at + 16) == enc_hex(m.resources.len(), 16) && values_here(
                b@,
                at + 16,
                m.resources,
            ) by {
                assert(m.entities.subrange(0, i as int) =~= m.entities);
                lemma_snapshot_at(b@, m);
            }
        }
        let ghost mid = at;
        let nres = match read_hex(b, at, 16) {
            Some(x) => x,
            None => return Err(DecodeError::Malformed),
        };
        let (resources, end) = match read_values(b, at + 16, nres, registry) {
            Ok(x) => x,
            Err((j, f)) => {
                return match f {
                    Some(fault) => Err(DecodeError::Resource { index: j, fault }),
                    None => Err(DecodeError::Malformed),
                };
            },
        };
        proof {
            assert forall|m: SnapshotModel| #[trigger] enc_snapshot(m) == b@ && snapshot_fits(m)
                implies end + 16 == b@.len() && b@.subrange(end as int, end + 16) == enc_hex(
                m.checksum as nat,
                16,
            ) by {
                lemma_snapshot_at(b@, m);
            }
        }
        let checksum = match read_hex(b, end, 16) {
            Some(x) => x,
            None => return Err(DecodeError::Malformed),
        };
        if end + 16 != blen {
            return Err(DecodeError::Malformed);
        }
        let s = WorldSnapshot { entities, resources, checksum };
        proof {
            lemma_enc_hex(n as nat, 16);
            lemma_enc_hex(nres as nat, 16);
            assert(b@ =~= b@.subrange(0, 16) + b@.subrange(16, mid as int) + b@.subrange(
                mid as int,
                mid + 16,
            ) + b@.subrange(mid + 16, end as int) + b@.subrange(end as int, end + 16));
            assert forall|m: SnapshotModel| #[trigger] enc_snapshot(m) == b@ && snapshot_fits(m)
                implies s@ == m by {
                assert(s@ =~= m);
            }
        }
        Ok(s)
    }
}

} // verus!




