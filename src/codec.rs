use vstd::prelude::*;

use crate::bytes::copy_bytes;
use crate::cache::{
    has_index, index_of_spec, index_pos, lemma_lookup_wf, lemma_put_wf, lemma_resolve_is_lookup, lookup_spec, put_spec,
    resolve_spec, view_wf, CacheError, CacheModel, CacheSnapshot, CacheView,
};

verus! {

/// The dictionary cache of templates, where each template is stored under itself.
pub type TemplateCache = CacheModel<Vec<u8>, Vec<u8>>;

/// The state of a template cache.
pub type TemplateView = CacheView<Seq<u8>, Seq<u8>>;

/// A transferable snapshot of a template cache.
pub type TemplateSnapshot = CacheSnapshot<Vec<u8>, Vec<u8>>;

/// Terminal entry that marks a reconfiguration decision. It travels through
/// the pipeline unchanged and never touches the cache.
#[derive(Clone, Debug, PartialEq, Eq)]
pub struct StopSign {
    /// The configuration that follows.
    pub config_id: u32,
    /// The nodes of that configuration.
    pub nodes: Vec<u64>,
    /// Opaque data attached by the application.
    pub metadata: Option<Vec<u8>>,
}

/// A client command, already split by the domain layer into its template
/// (the variable-stripped form, used as cache key) and its residual data.
#[derive(Clone, Debug, PartialEq, Eq)]
pub struct StoreCommand {
    pub id: u64,
    pub template: Vec<u8>,
    pub residual: Vec<u8>,
}

/// A log entry before encoding and after decoding.
#[derive(Clone, Debug, PartialEq, Eq)]
pub enum LogEntry {
    Command(StoreCommand),
    StopSign(StopSign),
}

/// A log entry in its wire form.
#[derive(Clone, Debug, PartialEq, Eq)]
pub enum WireEntry {
    /// The template was cached: only its index travels.
    Hit { id: u64, index: u64, residual: Vec<u8> },
    /// The template was not cached: it travels in full.
    Literal { id: u64, template: Vec<u8>, residual: Vec<u8> },
    StopSign(StopSign),
}

/// The meaning of a log entry.
pub enum EntryModel {
    Command { id: u64, template: Seq<u8>, residual: Seq<u8> },
    StopSign(StopSign),
}

/// The meaning of a wire entry.
pub enum WireModel {
    Hit { id: u64, index: u64, residual: Seq<u8> },
    Literal { id: u64, template: Seq<u8>, residual: Seq<u8> },
    StopSign(StopSign),
}

impl View for StoreCommand {
    type V = EntryModel;

    open spec fn view(&self) -> EntryModel {
        EntryModel::Command { id: self.id, template: self.template@, residual: self.residual@ }
    }
}

impl View for LogEntry {
    type V = EntryModel;

    open spec fn view(&self) -> EntryModel {
        match self {
            LogEntry::Command(c) => c@,
            LogEntry::StopSign(s) => EntryModel::StopSign(*s),
        }
    }
}

impl View for WireEntry {
    type V = WireModel;

    open spec fn view(&self) -> WireModel {
        match self {
            WireEntry::Hit { id, index, residual } => WireModel::Hit { id: *id, index: *index, residual: residual@ },
            WireEntry::Literal { id, template, residual } => WireModel::Literal { id: *id, template: template@, residual: residual@ },
            WireEntry::StopSign(s) => WireModel::StopSign(*s),
        }
    }
}

/// What the leader does to its cache when it encodes a command with
/// template `t`: look the template up, then put it.
pub open spec fn step(c: TemplateView, t: Seq<u8>) -> TemplateView {
    put_spec(lookup_spec(c, t), t, t)
}

/// The wire form of a command with template `t`, given the cache before it.
pub open spec fn wire_of(c: TemplateView, id: u64, t: Seq<u8>, r: Seq<u8>) -> WireModel {
    match index_of_spec(c, t) {
        Some(i) => WireModel::Hit { id, index: i, residual: r },
        None => WireModel::Literal { id, template: t, residual: r },
    }
}

/// Encoding: the new cache and the wire form.
pub open spec fn encode_spec(c: TemplateView, e: EntryModel) -> (TemplateView, WireModel) {
    match e {
        EntryModel::Command { id, template, residual } => (step(c, template), wire_of(c, id, template, residual)),
        EntryModel::StopSign(s) => (c, WireModel::StopSign(s)),
    }
}

/// Decoding: the new cache and the entry, or the error with the cache
/// untouched. A literal puts its template. A hit resolves its index, which
/// counts as an access just as the leader's successful lookup did, then puts
/// the template. Either way the follower's cache takes the leader's step.
pub open spec fn decode_spec(c: TemplateView, w: WireModel) -> (TemplateView, Result<EntryModel, CacheError>) {
    match w {
        WireModel::Hit { id, index, residual } => {
            if has_index(c.slots, index) {
                let t = c.slots[index_pos(c.slots, index)].key;
                (put_spec(resolve_spec(c, index), t, t), Ok(EntryModel::Command { id, template: t, residual }))
            } else {
                (c, Err(CacheError::IndexInvalid))
            }
        },
        WireModel::Literal { id, template, residual } => (put_spec(c, template, template), Ok(EntryModel::Command { id, template, residual })),
        WireModel::StopSign(s) => (c, Ok(EntryModel::StopSign(s))),
    }
}

/// Encoding of a sequence of entries, in order.
pub open spec fn encode_all(c: TemplateView, es: Seq<EntryModel>) -> (TemplateView, Seq<WireModel>)
    decreases es.len(),
{
    if es.len() == 0 {
        (c, Seq::empty())
    } else {
        let (c1, ws) = encode_all(c, es.drop_last());
        let (c2, w) = encode_spec(c1, es.last());
        (c2, ws.push(w))
    }
}

/// Decoding of a sequence of wire entries, in order, up to the first error.
pub open spec fn decode_all(c: TemplateView, ws: Seq<WireModel>) -> (TemplateView, Result<Seq<EntryModel>, CacheError>)
    decreases ws.len(),
{
    if ws.len() == 0 {
        (c, Ok(Seq::empty()))
    } else {
        let (c1, r1) = decode_all(c, ws.drop_last());
        match r1 {
            Err(e) => (c1, Err(e)),
            Ok(es) => {
                let (c2, r2) = decode_spec(c1, ws.last());
                match r2 {
                    Err(e) => (c2, Err(e)),
                    Ok(x) => (c2, Ok(es.push(x))),
                }
            },
        }
    }
}

/// The cache stays consistent under a codec step and uses at most one new index.
pub proof fn lemma_step_wf(c: TemplateView, t: Seq<u8>)
    requires
        view_wf(c),
        c.next_index < u64::MAX,
    ensures
        view_wf(step(c, t)),
        step(c, t).next_index <= c.next_index + 1,
        step(c, t).capacity == c.capacity,
{
    lemma_lookup_wf(c, t, 0);
    lemma_put_wf(lookup_spec(c, t), t, t);
}

/// Decoding the wire form of an entry, on a cache in the state that the
/// encoding cache was in, gives back the entry and the same new state.
pub proof fn lemma_round_trip(c: TemplateView, e: EntryModel)
    requires
        view_wf(c),
    ensures
        decode_spec(c, encode_spec(c, e).1) == (encode_spec(c, e).0, Ok::<EntryModel, CacheError>(e)),
{
    if let EntryModel::Command { id, template, residual } = e {
        if let Some(i) = index_of_spec(c, template) {
            lemma_resolve_is_lookup(c, template);
        }
    }
}

/// Encoding a sequence keeps the cache consistent and uses at most one new
/// index per entry.
pub proof fn lemma_encode_all_wf(c: TemplateView, es: Seq<EntryModel>)
    requires
        view_wf(c),
        c.next_index + es.len() < u64::MAX,
    ensures
        view_wf(encode_all(c, es).0),
        encode_all(c, es).0.next_index <= c.next_index + es.len(),
        encode_all(c, es).1.len() == es.len(),
    decreases es.len(),
{
    if es.len() > 0 {
        lemma_encode_all_wf(c, es.drop_last());
        let c1 = encode_all(c, es.drop_last()).0;
        if let EntryModel::Command { id, template, residual } = es.last() {
            lemma_step_wf(c1, template);
        }
    }
}

/// A follower whose cache starts in the leader's state and decodes, in
/// order, every wire entry that the leader produced for a sequence of
/// entries gets back every entry and ends in the leader's state.
pub proof fn lemma_round_trip_all(c: TemplateView, es: Seq<EntryModel>)
    requires
        view_wf(c),
        c.next_index + es.len() < u64::MAX,
    ensures
        decode_all(c, encode_all(c, es).1) == (encode_all(c, es).0, Ok::<Seq<EntryModel>, CacheError>(es)),
    decreases es.len(),
{
    if es.len() > 0 {
        let pre = es.drop_last();
        lemma_round_trip_all(c, pre);
        lemma_encode_all_wf(c, pre);
        let (c1, ws) = encode_all(c, pre);
        let (c2, w) = encode_spec(c1, es.last());
        lemma_round_trip(c1, es.last());
        let all = ws.push(w);
        assert(all.drop_last() =~= ws);
        assert(all.last() == w);
        assert(encode_all(c, es) == (c2, all));
        assert(decode_all(c, ws) == (c1, Ok::<Seq<EntryModel>, CacheError>(pre)));
        assert(decode_spec(c1, w) == (c2, Ok::<EntryModel, CacheError>(es.last())));
        assert(pre.push(es.last()) =~= es);
        assert(decode_all(c, all) == (c2, Ok::<Seq<EntryModel>, CacheError>(pre.push(es.last()))));
    } else {
        assert(es =~= Seq::<EntryModel>::empty());
    }
}

impl StoreCommand {
    /// Rewrites the command into its wire form: a `Hit` with the template's
    /// index if the template is cached, a `Literal` otherwise. Either way the
    /// template is then put into the cache.
    pub fn encode(self, cache: &mut TemplateCache) -> (w: WireEntry)
        requires
            old(cache).wf(),
            old(cache)@.next_index < u64::MAX,
        ensures
            final(cache).wf(),
            (final(cache)@, w@) == encode_spec(old(cache)@, self@),
    {
        let StoreCommand { id, template, residual } = self;
        let found = cache.index_of(&template);
        proof {
            old(cache).lemma_wf();
            lemma_lookup_wf(old(cache)@, template@, 0);
        }
        cache.put(copy_bytes(&template), copy_bytes(&template));
        match found {
            Some(index) => WireEntry::Hit { id, index, residual },
            None => WireEntry::Literal { id, template, residual },
        }
    }

    /// Rebuilds a command from its wire form. A `Hit` whose index no resident
    /// template owns fails with `IndexInvalid` and leaves the cache as it
    /// was; a stop sign is no command and fails with `MalformedWireEntry`.
    pub fn decode(w: WireEntry, cache: &mut TemplateCache) -> (r: Result<StoreCommand, CacheError>)
        requires
            old(cache).wf(),
            old(cache)@.next_index < u64::MAX,
        ensures
            final(cache).wf(),
            w is StopSign ==> final(cache)@ == old(cache)@ && r == Err::<StoreCommand, CacheError>(CacheError::MalformedWireEntry),
            w !is StopSign ==> final(cache)@ == decode_spec(old(cache)@, w@).0 && match r {
                Ok(c) => decode_spec(old(cache)@, w@).1 == Ok::<EntryModel, CacheError>(c@),
                Err(e) => decode_spec(old(cache)@, w@).1 == Err::<EntryModel, CacheError>(e),
            },
    {
        match w {
            WireEntry::Hit { id, index, residual } => {
                match cache.entry_at(index) {
                    Ok((key, _value)) => {
                        proof {
                            old(cache).lemma_wf();
                            lemma_lookup_wf(old(cache)@, key@, index);
                        }
                        cache.put(copy_bytes(&key), copy_bytes(&key));
                        Ok(StoreCommand { id, template: key, residual })
                    },
                    Err(e) => Err(e),
                }
            },
            WireEntry::Literal { id, template, residual } => {
                cache.put(copy_bytes(&template), copy_bytes(&template));
                Ok(StoreCommand { id, template, residual })
            },
            WireEntry::StopSign(_) => Err(CacheError::MalformedWireEntry),
        }
    }
}

/// Encodes one log entry; a stop sign passes unchanged.
pub fn encode(e: LogEntry, cache: &mut TemplateCache) -> (w: WireEntry)
    requires
        old(cache).wf(),
        old(cache)@.next_index < u64::MAX,
    ensures
        final(cache).wf(),
        (final(cache)@, w@) == encode_spec(old(cache)@, e@),
{
    match e {
        LogEntry::Command(c) => c.encode(cache),
        LogEntry::StopSign(s) => WireEntry::StopSign(s),
    }
}

/// Decodes one wire entry; a stop sign passes unchanged.
pub fn decode(w: WireEntry, cache: &mut TemplateCache) -> (r: Result<LogEntry, CacheError>)
    requires
        old(cache).wf(),
        old(cache)@.next_index < u64::MAX,
    ensures
        final(cache).wf(),
        final(cache)@ == decode_spec(old(cache)@, w@).0,
        match r {
            Ok(e) => decode_spec(old(cache)@, w@).1 == Ok::<EntryModel, CacheError>(e@),
            Err(x) => decode_spec(old(cache)@, w@).1 == Err::<EntryModel, CacheError>(x),
        },
{
    match w {
        WireEntry::StopSign(s) => Ok(LogEntry::StopSign(s)),
        _ => match StoreCommand::decode(w, cache) {
            Ok(c) => Ok(LogEntry::Command(c)),
            Err(x) => Err(x),
        },
    }
}

} // verus!
