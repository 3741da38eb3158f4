use vstd::prelude::*;

use crate::cache::CacheError;
use crate::codec::{decode_spec, encode_spec, EntryModel, StoreCommand, TemplateCache, WireEntry, WireModel};

verus! {

/// The field separator of the textual wire form, `*|*`.
pub open spec fn sep() -> Seq<u8> {
    seq![42u8, 124u8, 42u8]
}

/// A separator starts at position `i` of `s`.
pub open spec fn sep_at(s: Seq<u8>, i: int) -> bool {
    0 <= i && i + 3 <= s.len() && s[i] == 42u8 && s[i + 1] == 124u8 && s[i + 2] == 42u8
}

/// First position at or after `from` where a separator starts, or -1.
pub open spec fn find_sep(s: Seq<u8>, from: int) -> int
    decreases s.len() - from,
{
    if from < 0 || from + 3 > s.len() {
        -1
    } else if sep_at(s, from) {
        from
    } else {
        find_sep(s, from + 1)
    }
}

/// Decimal digits of `n`, most significant first, without leading zeros.
pub open spec fn decimal(n: nat) -> Seq<u8>
    decreases n,
{
    if n < 10 {
        seq![(48 + n) as u8]
    } else {
        decimal(n / 10).push((48 + n % 10) as u8)
    }
}

/// A non-empty string of ASCII digits.
pub open spec fn is_digits(f: Seq<u8>) -> bool {
    f.len() > 0 && forall|i: int| 0 <= i < f.len() ==> 48 <= #[trigger] f[i] <= 57
}

/// The number that a string of digits spells.
pub open spec fn digits_value(f: Seq<u8>) -> nat
    decreases f.len(),
{
    if f.len() == 0 {
        0
    } else {
        digits_value(f.drop_last()) * 10 + (f.last() - 48) as nat
    }
}

/// The textual wire form of a command entry: tag `1` with the decimal
/// index for a hit, tag `0` with the template for a literal, then the
/// residual, separated by `*|*`.
pub open spec fn frame_spec(w: WireModel) -> Seq<u8> {
    match w {
        WireModel::Hit { id, index, residual } => seq![49u8] + sep() + decimal(index as nat) + sep() + residual,
        WireModel::Literal { id, template, residual } => seq![48u8] + sep() + template + sep() + residual,
        WireModel::StopSign(_) => Seq::empty(),
    }
}

/// Reading of a textual wire form: exactly three fields, a known tag, and
/// for a hit an index that fits in 64 bits.
pub open spec fn parse_spec(id: u64, s: Seq<u8>) -> Result<WireModel, CacheError> {
    let p1 = find_sep(s, 0);
    let p2 = find_sep(s, p1 + 3);
    if p1 < 0 || p2 < 0 || find_sep(s, p2 + 3) >= 0 {
        Err(CacheError::MalformedWireEntry)
    } else {
        let tag = s.subrange(0, p1);
        let field = s.subrange(p1 + 3, p2);
        let residual = s.subrange(p2 + 3, s.len() as int);
        if tag == seq![48u8] {
            Ok(WireModel::Literal { id, template: field, residual })
        } else if tag == seq![49u8] && is_digits(field) && digits_value(field) <= u64::MAX {
            Ok(WireModel::Hit { id, index: digits_value(field) as u64, residual })
        } else {
            Err(CacheError::MalformedWireEntry)
        }
    }
}

/// No separator starts inside `f`, also not one that runs into a separator
/// that follows it.
pub open spec fn sep_free(f: Seq<u8>) -> bool {
    forall|j: int| 0 <= j < f.len() ==> !sep_at(f + sep(), j)
}

/// No separator occurs in `f`.
pub open spec fn no_sep(f: Seq<u8>) -> bool {
    forall|j: int| 0 <= j < f.len() ==> !sep_at(f, j)
}

proof fn lemma_find_sep_at(s: Seq<u8>, from: int, k: int)
    requires
        0 <= from <= k,
        sep_at(s, k),
        forall|j: int| from <= j < k ==> !sep_at(s, j),
    ensures
        find_sep(s, from) == k,
    decreases k - from,
{
    if from < k {
        lemma_find_sep_at(s, from + 1, k);
    }
}

proof fn lemma_find_sep_none(s: Seq<u8>, from: int)
    requires
        0 <= from,
        forall|j: int| from <= j < s.len() ==> !sep_at(s, j),
    ensures
        find_sep(s, from) == -1,
    decreases s.len() - from,
{
    if from + 3 <= s.len() {
        lemma_find_sep_none(s, from + 1);
    }
}

proof fn lemma_decimal(n: nat)
    ensures
        is_digits(decimal(n)),
        digits_value(decimal(n)) == n,
    decreases n,
{
    let d = decimal(n);
    if n >= 10 {
        lemma_decimal(n / 10);
        assert(d.drop_last() =~= decimal(n / 10));
        assert(d.last() == (48 + n % 10) as u8);
        assert((n / 10) * 10 + n % 10 == n);
        assert(digits_value(d) == digits_value(d.drop_last()) * 10 + (d.last() - 48) as nat);
    } else {
        assert(d.drop_last() =~= Seq::<u8>::empty());
        assert(digits_value(d.drop_last()) == 0);
        assert(d.last() == (48 + n) as u8);
        assert(digits_value(d) == digits_value(d.drop_last()) * 10 + (d.last() - 48) as nat);
    }
}

/// Reading the textual form of a command entry gives the entry back, when
/// neither its template nor its residual holds the separator.
pub proof fn lemma_frame_round_trip(w: WireModel)
    requires
        w !is StopSign,
        w matches WireModel::Literal { template, .. } ==> sep_free(template),
        w matches WireModel::Hit { residual, .. } ==> no_sep(residual),
        w matches WireModel::Literal { residual, .. } ==> no_sep(residual),
    ensures
        w matches WireModel::Hit { id, .. } ==> parse_spec(id, frame_spec(w)) == Ok::<WireModel, CacheError>(w),
        w matches WireModel::Literal { id, .. } ==> parse_spec(id, frame_spec(w)) == Ok::<WireModel, CacheError>(w),
{
    let (id, tag, f, r) = match w {
        WireModel::Hit { id, index, residual } => {
            lemma_decimal(index as nat);
            (id, 49u8, decimal(index as nat), residual)
        },
        WireModel::Literal { id, template, residual } => (id, 48u8, template, residual),
        WireModel::StopSign(_) => (0, 0u8, Seq::empty(), Seq::empty()),
    };
    if tag == 49u8 {
        assert forall|j: int| 0 <= j < f.len() implies !sep_at(f + sep(), j) by {
            let g = f + sep();
            assert(g[j] == f[j]);
        }
    }
    let s = seq![tag] + sep() + f + sep() + r;
    assert(s == frame_spec(w));
    let n: int = f.len() as int;
    let p2: int = 4 + n;
    let g = f + sep();
    assert forall|x: int| 0 <= x < n + 3 implies s[4 + x] == #[trigger] g[x] by {}
    assert forall|x: int| 0 <= x < r.len() implies s[p2 + 3 + x] == #[trigger] r[x] by {}
    assert(!sep_at(s, 0));
    assert(sep_at(s, 1));
    lemma_find_sep_at(s, 0, 1);
    assert forall|j: int| 4 <= j < p2 implies !sep_at(s, j) by {
        assert(!sep_at(g, j - 4));
        assert(s[j] == g[j - 4] && s[j + 1] == g[j - 3] && s[j + 2] == g[j - 2]);
    }
    assert(sep_at(s, p2));
    lemma_find_sep_at(s, 4, p2);
    assert forall|j: int| p2 + 3 <= j < s.len() implies !sep_at(s, j) by {
        if j + 3 <= s.len() {
            assert(!sep_at(r, j - p2 - 3));
            assert(s[j] == r[j - p2 - 3] && s[j + 1] == r[j - p2 - 2] && s[j + 2] == r[j - p2 - 1]);
        }
    }
    lemma_find_sep_none(s, p2 + 3);
    assert(s.subrange(0, 1) =~= seq![tag]);
    assert(s.subrange(4, p2) =~= f);
    assert(s.subrange(p2 + 3, s.len() as int) =~= r);
}

/// Position of the first separator at or after `from`.
fn find_sep_exec(s: &Vec<u8>, from: usize) -> (r: Option<usize>)
    ensures
        match r {
            Some(p) => p as int == find_sep(s@, from as int) && from <= p && p + 3 <= s@.len(),
            None => find_sep(s@, from as int) == -1,
        },
{
    let mut i: usize = from;
    while i < s.len() && s.len() - i >= 3
        invariant
            from <= i,
            find_sep(s@, from as int) == find_sep(s@, i as int),
        decreases s@.len() - i,
    {
        if s[i] == 42u8 && s[i + 1] == 124u8 && s[i + 2] == 42u8 {
            return Some(i);
        }
        i = i + 1;
    }
    None
}

/// Bytes `a..b` of `s`.
fn copy_range(s: &Vec<u8>, a: usize, b: usize) -> (r: Vec<u8>)
    requires
        a <= b <= s@.len(),
    ensures
        r@ == s@.subrange(a as int, b as int),
{
    let mut r: Vec<u8> = Vec::new();
    let mut i: usize = a;
    while i < b
        invariant
            a <= i <= b <= s@.len(),
            r@ == s@.subrange(a as int, i as int),
        decreases b - i,
    {
        r.push(s[i]);
        i = i + 1;
        assert(r@ =~= s@.subrange(a as int, i as int));
    }
    r
}

/// Appends `src` to `out`.
fn push_all(out: &mut Vec<u8>, src: &Vec<u8>)
    ensures
        final(out)@ == old(out)@ + src@,
{
    let mut i: usize = 0;
    while i < src.len()
        invariant
            0 <= i <= src@.len(),
            out@ == old(out)@ + src@.subrange(0, i as int),
        decreases src@.len() - i,
    {
        out.push(src[i]);
        i = i + 1;
        assert(out@ =~= old(out)@ + src@.subrange(0, i as int));
    }
    assert(src@.subrange(0, src@.len() as int) =~= src@);
}

fn push_sep(out: &mut Vec<u8>)
    ensures
        final(out)@ == old(out)@ + sep(),
{
    out.push(42u8);
    out.push(124u8);
    out.push(42u8);
    assert(out@ =~= old(out)@ + sep());
}

/// Appends the decimal digits of `n`.
fn push_decimal(out: &mut Vec<u8>, n: u64)
    ensures
        final(out)@ == old(out)@ + decimal(n as nat),
    decreases n,
{
    if n >= 10 {
        push_decimal(out, n / 10);
    }
    out.push((48 + n % 10) as u8);
    assert(out@ =~= old(out)@ + decimal(n as nat));
}

/// The number that the digits `f` spell, if it fits in 64 bits.
fn parse_digits(f: &Vec<u8>) -> (r: Option<u64>)
    ensures
        match r {
            Some(v) => is_digits(f@) && digits_value(f@) == v,
            None => !is_digits(f@) || digits_value(f@) > u64::MAX,
        },
{
    if f.len() == 0 {
        return None;
    }
    let mut acc: u64 = 0;
    let mut i: usize = 0;
    while i < f.len()
        invariant
            0 <= i <= f@.len(),
            forall|j: int| 0 <= j < i ==> 48 <= #[trigger] f@[j] <= 57,
            acc == digits_value(f@.subrange(0, i as int)),
        decreases f@.len() - i,
    {
        let c = f[i];
        proof {
            assert(f@.subrange(0, i + 1).drop_last() =~= f@.subrange(0, i as int));
        }
        if c < 48 || c > 57 {
            return None;
        }
        let d = (c - 48) as u64;
        if acc > (u64::MAX - d) / 10 {
            proof {
                assert(acc * 10 + d > u64::MAX) by (nonlinear_arith)
                    requires acc > (u64::MAX - d) / 10, d <= 9;
                lemma_digits_grow(f@, i as int + 1);
            }
            return None;
        }
        assert(acc * 10 + d <= u64::MAX) by (nonlinear_arith)
            requires acc <= (u64::MAX - d) / 10, d <= 9;
        acc = acc * 10 + d;
        i = i + 1;
    }
    assert(f@.subrange(0, i as int) =~= f@);
    Some(acc)
}

/// A string of digits spells at least as much as any of its prefixes.
proof fn lemma_digits_grow(f: Seq<u8>, k: int)
    requires
        0 <= k <= f.len(),
        forall|j: int| 0 <= j < k ==> 48 <= #[trigger] f[j] <= 57,
    ensures
        is_digits(f) ==> digits_value(f) >= digits_value(f.subrange(0, k)),
    decreases f.len() - k,
{
    if k == f.len() {
        assert(f.subrange(0, k) =~= f);
    } else if is_digits(f) {
        lemma_digits_grow(f, k + 1);
        assert(f.subrange(0, k + 1).drop_last() =~= f.subrange(0, k));
    }
}

/// The textual wire form of a command entry; a stop sign has none.
pub fn to_wire_bytes(w: &WireEntry) -> (r: Option<Vec<u8>>)
    ensures
        match r {
            Some(b) => w@ !is StopSign && b@ == frame_spec(w@),
            None => w@ is StopSign,
        },
{
    let mut out: Vec<u8> = Vec::new();
    match w {
        WireEntry::Hit { id, index, residual } => {
            out.push(49u8);
            push_sep(&mut out);
            push_decimal(&mut out, *index);
            push_sep(&mut out);
            push_all(&mut out, residual);
            assert(out@ =~= frame_spec(w@));
            Some(out)
        },
        WireEntry::Literal { id, template, residual } => {
            out.push(48u8);
            push_sep(&mut out);
            push_all(&mut out, template);
            push_sep(&mut out);
            push_all(&mut out, residual);
            assert(out@ =~= frame_spec(w@));
            Some(out)
        },
        WireEntry::StopSign(_) => None,
    }
}

/// Reads the textual wire form of the command entry `id`. Input with other
/// than three fields, an unknown tag, or a hit index that is not a 64-bit
/// decimal number fails with `MalformedWireEntry`.
pub fn from_wire_bytes(id: u64, s: &Vec<u8>) -> (r: Result<WireEntry, CacheError>)
    ensures
        match r {
            Ok(w) => parse_spec(id, s@) == Ok::<WireModel, CacheError>(w@),
            Err(e) => parse_spec(id, s@) == Err::<WireModel, CacheError>(e),
        },
{
    let len = s.len();
    let p1 = match find_sep_exec(s, 0) {
        Some(p) => p,
        None => return Err(CacheError::MalformedWireEntry),
    };
    let p2 = match find_sep_exec(s, p1 + 3) {
        Some(p) => p,
        None => return Err(CacheError::MalformedWireEntry),
    };
    if find_sep_exec(s, p2 + 3).is_some() {
        return Err(CacheError::MalformedWireEntry);
    }
    let field = copy_range(s, p1 + 3, p2);
    let residual = copy_range(s, p2 + 3, s.len());
    if p1 == 1 && s[0] == 48u8 {
        assert(s@.subrange(0, p1 as int) =~= seq![48u8]);
        Ok(WireEntry::Literal { id, template: field, residual })
    } else if p1 == 1 && s[0] == 49u8 {
        assert(s@.subrange(0, p1 as int) =~= seq![49u8]);
        assert(seq![49u8][0] != seq![48u8][0]);
        match parse_digits(&field) {
            Some(index) => Ok(WireEntry::Hit { id, index, residual }),
            None => Err(CacheError::MalformedWireEntry),
        }
    } else {
        proof {
            let tag = s@.subrange(0, p1 as int);
            if tag == seq![48u8] || tag == seq![49u8] {
                assert(tag.len() == 1 && tag[0] == s@[0]);
            }
        }
        Err(CacheError::MalformedWireEntry)
    }
}

impl StoreCommand {
    /// Encodes the command against the leader's cache and writes its wire
    /// form as text.
    pub fn encode_text(self, cache: &mut TemplateCache) -> (r: Vec<u8>)
        requires
            old(cache).wf(),
            old(cache)@.next_index < u64::MAX,
        ensures
            final(cache).wf(),
            final(cache)@ == encode_spec(old(cache)@, self@).0,
            r@ == frame_spec(encode_spec(old(cache)@, self@).1),
    {
        let w = self.encode(cache);
        match to_wire_bytes(&w) {
            Some(b) => b,
            None => Vec::new(),
        }
    }

    /// Reads the text wire form of command `id` and decodes it against the
    /// follower's cache. Text that does not parse fails with
    /// `MalformedWireEntry` and leaves the cache as it was.
    pub fn decode_text(id: u64, text: &Vec<u8>, cache: &mut TemplateCache) -> (r: Result<StoreCommand, CacheError>)
        requires
            old(cache).wf(),
            old(cache)@.next_index < u64::MAX,
        ensures
            final(cache).wf(),
            match parse_spec(id, text@) {
                Err(e) => r == Err::<StoreCommand, CacheError>(e) && final(cache)@ == old(cache)@,
                Ok(w) => final(cache)@ == decode_spec(old(cache)@, w).0 && match r {
                    Ok(c) => decode_spec(old(cache)@, w).1 == Ok::<EntryModel, CacheError>(c@),
                    Err(e) => decode_spec(old(cache)@, w).1 == Err::<EntryModel, CacheError>(e),
                },
            },
    {
        match from_wire_bytes(id, text) {
            Ok(w) => StoreCommand::decode(w, cache),
            Err(e) => Err(e),
        }
    }
}

} // verus!
