use vstd::prelude::*;
use crate::epg_channel::{
    events_view,
    last_start,
    sort_events,
    EpgChannel,
    EpgChannelView,
};
use crate::epg_event::EpgEvent;
use crate::lang::LangTable;
use crate::read_xml::{
    document_events,
    failure_of,
    leading_events,
    parse_events,
    read_xml_tv,
    XmlReaderError,
};
use crate::write_xml::{document_of, rendered, write_xml_tv, XmlWriterError};
use vstd::string::StrSliceExecFns;
use crate::text_map::{distinct_keys, has_key, key_index, lemma_key_index, lemma_put, lookup, put, same_text};

verus! {

/// A channel under its identifier.
#[derive(Debug, PartialEq)]
pub struct ChannelEntry {
    pub id: String,
    pub channel: EpgChannel,
}

/// The entries as pairs of identifier and channel.
pub open spec fn channels_view(entries: Seq<ChannelEntry>) -> Seq<(Seq<char>, EpgChannelView)> {
    Seq::new(entries.len(), |i: int| (entries[i].id@, entries[i].channel@))
}

/// A channel with its events in the order of their start times and the
/// start of the last one noted.
pub open spec fn sorted_channel(channel: EpgChannelView) -> EpgChannelView {
    EpgChannelView {
        name: channel.name,
        events: sort_events(channel.events),
        last_event_start: last_start(sort_events(channel.events)),
    }
}

/// The channels, each with its events in order.
pub open spec fn sorted_channels(m: Seq<(Seq<char>, EpgChannelView)>) -> Seq<
    (Seq<char>, EpgChannelView),
> {
    Seq::new(m.len(), |i: int| (m[i].0, sorted_channel(m[i].1)))
}

/// The channels with `event` behind the events of the one at place `at`.
pub open spec fn with_event(
    m: Seq<(Seq<char>, EpgChannelView)>,
    at: int,
    event: crate::epg_event::EpgEventView,
) -> Seq<(Seq<char>, EpgChannelView)> {
    m.update(at, (m[at].0, EpgChannelView { events: m[at].1.events.push(event), ..m[at].1 }))
}

/// Channels by identifier, in the order in which they came in. No
/// identifier stands twice.
#[derive(Debug, PartialEq)]
pub struct ChannelMap {
    entries: Vec<ChannelEntry>,
}

impl View for ChannelMap {
    type V = Seq<(Seq<char>, EpgChannelView)>;

    /// The channels as pairs of identifier and channel, in their order.
    closed spec fn view(&self) -> Seq<(Seq<char>, EpgChannelView)> {
        channels_view(self.entries@)
    }
}

impl ChannelMap {
    /// No identifier stands twice.
    #[verifier::type_invariant]
    closed spec fn inv(&self) -> bool {
        distinct_keys(self@)
    }

    /// A map without channels.
    pub fn new() -> (r: Self)
        ensures
            r@ == Seq::<(Seq<char>, EpgChannelView)>::empty(),
    {
        let r = ChannelMap { entries: Vec::new() };
        assert(r@ =~= Seq::<(Seq<char>, EpgChannelView)>::empty());
        r
    }

    /// The number of channels. No identifier stands twice.
    pub fn len(&self) -> (n: usize)
        ensures
            n == self@.len(),
            distinct_keys(self@),
    {
        proof {
            use_type_invariant(self);
        }
        self.entries.len()
    }

    /// Whether there is no channel.
    pub fn is_empty(&self) -> (r: bool)
        ensures
            r == (self@.len() == 0),
    {
        self.entries.len() == 0
    }

    /// The identifier of the channel at place `i`.
    pub fn id_at(&self, i: usize) -> (r: &String)
        requires
            i < self@.len(),
        ensures
            r@ == self@[i as int].0,
    {
        &self.entries[i].id
    }

    /// The channel at place `i`.
    pub fn channel_at(&self, i: usize) -> (r: &EpgChannel)
        requires
            i < self@.len(),
        ensures
            r@ == self@[i as int].1,
    {
        &self.entries[i].channel
    }

    /// The place of the channel `id`.
    pub fn position(&self, id: &str) -> (r: Option<usize>)
        ensures
            r.is_some() == has_key(self@, id@),
            r.is_some() ==> r.unwrap() == key_index(self@, id@),
    {
        proof {
            use_type_invariant(self);
        }
        let mut i: usize = 0;
        while i < self.entries.len()
            invariant
                i <= self.entries@.len(),
                self@.len() == self.entries@.len(),
                distinct_keys(self@),
                forall|j: int| 0 <= j < i ==> (#[trigger] self@[j]).0 != id@,
            decreases self.entries@.len() - i,
        {
            if same_text(self.entries[i].id.as_str(), id) {
                proof {
                    lemma_key_index(self@, i as int);
                }
                return Some(i);
            }
            i += 1;
        }
        None
    }

    /// The channel `id`.
    pub fn get(&self, id: &str) -> (r: Option<&EpgChannel>)
        ensures
            match r {
                Some(channel) => lookup(self@, id@) == Some(channel@),
                None => lookup(self@, id@).is_none(),
            },
    {
        match self.position(id) {
            Some(i) => Some(&self.entries[i].channel),
            None => None,
        }
    }

    /// Whether there is a channel `id`.
    pub fn contains_key(&self, id: &str) -> (r: bool)
        ensures
            r == has_key(self@, id@),
    {
        self.position(id).is_some()
    }

    /// Hands out the entries and leaves the map empty.
    fn take_entries(&mut self) -> (entries: Vec<ChannelEntry>)
        ensures
            entries == old(self).entries,
            final(self).entries@.len() == 0,
    {
        let mut taken = ChannelMap::new();
        assert(taken@.len() == taken.entries@.len());
        core::mem::swap(self, &mut taken);
        taken.entries
    }

    /// Puts `channel` under `id`, in place of the one that was there.
    pub fn insert(&mut self, id: String, channel: EpgChannel)
        ensures
            final(self)@ == put(old(self)@, id@, channel@),
    {
        proof {
            use_type_invariant(&*self);
            lemma_put(self@, id@, channel@);
        }
        let at = self.position(id.as_str());
        let mut entries = self.take_entries();
        match at {
            Some(i) => {
                entries[i] = ChannelEntry { id, channel };
            },
            None => {
                entries.push(ChannelEntry { id, channel });
            },
        }
        assert(channels_view(entries@) =~= put(old(self)@, id@, channel@));
        *self = ChannelMap { entries };
    }

    /// Puts `event` behind the events of the channel at place `at`.
    pub fn push_event(&mut self, at: usize, event: EpgEvent)
        requires
            at < old(self)@.len(),
        ensures
            final(self)@ == with_event(old(self)@, at as int, event@),
    {
        proof {
            use_type_invariant(&*self);
        }
        let ghost before = self@;
        let mut entries = self.take_entries();
        let ghost prev = events_view(entries@[at as int].channel.events@);
        entries[at].channel.events.push(event);
        proof {
            assert(events_view(entries@[at as int].channel.events@) =~= prev.push(event@));
            let after = with_event(before, at as int, event@);
            assert(channels_view(entries@) =~= after);
            assert forall|i: int, j: int| 0 <= i < j < after.len() implies (#[trigger] after[i]).0
                != (#[trigger] after[j]).0 by {
                assert(after[i].0 == before[i].0 && after[j].0 == before[j].0);
            }
        }
        *self = ChannelMap { entries };
    }

    /// Puts the events of every channel in the order of their start times
    /// and lets each channel note the start of its last event. Every event
    /// keeps its identifier.
    pub fn sort_all(&mut self)
        ensures
            final(self)@ == sorted_channels(old(self)@),
    {
        proof {
            use_type_invariant(&*self);
        }
        let ghost before = self@;
        let mut entries = self.take_entries();
        let count = entries.len();
        let mut i: usize = 0;
        while i < count
            invariant
                i <= count,
                count == entries@.len(),
                count == before.len(),
                forall|j: int|
                    0 <= j < i ==> #[trigger] channels_view(entries@)[j] == sorted_channels(
                        before,
                    )[j],
                forall|j: int| i <= j < count ==> #[trigger] channels_view(entries@)[j] == before[j],
            decreases count - i,
        {
            let ghost prev = entries@;
            entries[i].channel.put_in_order();
            proof {
                assert(entries@.len() == prev.len());
                assert(entries@[i as int].id == prev[i as int].id);
                assert(channels_view(prev)[i as int] == before[i as int]);
                assert(entries@[i as int].channel@ == sorted_channel(prev[i as int].channel@));
                assert forall|j: int| 0 <= j < count && j != i implies entries@[j] == prev[j] by {}
                assert forall|j: int| 0 <= j < i + 1 implies #[trigger] channels_view(entries@)[j]
                    == sorted_channels(before)[j] by {
                    if j < i {
                        assert(channels_view(prev)[j] == sorted_channels(before)[j]);
                    }
                }
                assert forall|j: int| i + 1 <= j < count implies #[trigger] channels_view(
                    entries@,
                )[j] == before[j] by {
                    assert(channels_view(prev)[j] == before[j]);
                }
            }
            i += 1;
        }
        proof {
            let after = sorted_channels(before);
            assert(channels_view(entries@) =~= after);
            assert forall|i: int, j: int| 0 <= i < j < after.len() implies (#[trigger] after[i]).0
                != (#[trigger] after[j]).0 by {
                assert(after[i].0 == before[i].0 && after[j].0 == before[j].0);
            }
        }
        *self = ChannelMap { entries };
    }
}

impl Default for ChannelMap {
    /// A map without channels.
    fn default() -> (r: Self)
        ensures
            r@ == Seq::<(Seq<char>, EpgChannelView)>::empty(),
    {
        ChannelMap::new()
    }
}

/// The schedule: the channels and their events.
#[derive(Debug, PartialEq)]
pub struct Epg {
    pub channels: ChannelMap,
}

impl View for Epg {
    type V = Seq<(Seq<char>, EpgChannelView)>;

    /// The channels as pairs of identifier and channel, in their order.
    open spec fn view(&self) -> Seq<(Seq<char>, EpgChannelView)> {
        self.channels@
    }
}

impl Default for Epg {
    /// A schedule without channels.
    fn default() -> (r: Self)
        ensures
            r@ == Seq::<(Seq<char>, EpgChannelView)>::empty(),
    {
        Epg { channels: ChannelMap::new() }
    }
}

/// The error of std's input and output, `std::io::Error`. It is carried
/// through; nothing is known of what it holds.
#[verifier::external_type_specification]
#[verifier::external_body]
pub struct ExIoError(std::io::Error);

/// Why a schedule could not be loaded or written.
#[derive(Debug)]
pub enum EpgError {
    /// The source could not be opened, read or unpacked
    Io(std::io::Error),
    /// The source could not be fetched; the text says why
    HttpClient(String),
    /// The document could not be read
    XmlReader(XmlReaderError),
    /// The document could not be written
    XmlWriter(XmlWriterError),
    /// The source is of a kind that is not known
    UnknownSourceType,
}

/// The two bytes every gzip stream starts with.
pub const GZIP_MAGIC: [u8; 2] = [0x1f, 0x8b];

/// Whether `buf` starts with the bytes of a gzip stream.
pub open spec fn gzip_magic(buf: Seq<u8>) -> bool {
    buf.len() >= 2 && buf[0] == 0x1f && buf[1] == 0x8b
}

/// Whether `buf` starts with the bytes of a gzip stream.
pub fn is_gzip(buf: &[u8]) -> (r: bool)
    ensures
        r == gzip_magic(buf@),
{
    buf.len() >= 2 && buf[0] == GZIP_MAGIC[0] && buf[1] == GZIP_MAGIC[1]
}

/// What libflate's gzip decoder reads from the stream `src` up to its end;
/// `None` where it fails.
pub uninterp spec fn inflated(src: Seq<u8>) -> Option<Seq<u8>>;

/// Calls libflate's `gzip::Decoder::new` on `src` and reads the decoder to
/// its end. The bytes that come out, and whether any do, are a function of
/// `src` alone.
#[verifier::external_body]
fn gunzip(src: &[u8]) -> (r: Result<Vec<u8>, std::io::Error>)
    ensures
        match r {
            Ok(bytes) => inflated(src@) == Some(bytes@),
            Err(_) => inflated(src@).is_none(),
        },
{
    let mut bytes = Vec::new();
    match libflate::gzip::Decoder::new(src) {
        Ok(mut decoder) => match std::io::Read::read_to_end(&mut decoder, &mut bytes) {
            Ok(_) => Ok(bytes),
            Err(e) => Err(e),
        },
        Err(e) => Err(e),
    }
}

/// Where a schedule comes from.
#[derive(Debug, Clone, PartialEq, Eq)]
pub enum Source {
    /// A file, by its path
    File(String),
    /// A document on the web, by its whole address
    Http(String),
}

/// Where a schedule comes from, as plain values.
pub enum SourceView {
    File(Seq<char>),
    Http(Seq<char>),
}

impl View for Source {
    type V = SourceView;

    /// The source as plain values.
    open spec fn view(&self) -> SourceView {
        match self {
            Source::File(path) => SourceView::File(path@),
            Source::Http(url) => SourceView::Http(url@),
        }
    }
}

/// Whether `://` stands in `src` at the place `at`.
pub open spec fn separator_at(src: Seq<char>, at: int) -> bool {
    0 <= at && at + 3 <= src.len() && src[at] == ':' && src[at + 1] == '/' && src[at + 2] == '/'
}

/// The first place at which `://` stands in `src`, from `from` on.
pub open spec fn first_separator(src: Seq<char>, from: int) -> Option<int>
    decreases src.len() - from,
{
    if from < 0 || from + 3 > src.len() {
        None
    } else if separator_at(src, from) {
        Some(from)
    } else {
        first_separator(src, from + 1)
    }
}

/// The source that `src` names. What stands before the first `://` is the
/// scheme, what stands behind it the path; a text without `://` is the path
/// of a file. The scheme `file` names the file at the path, the schemes
/// `http` and `https` the document at the address `src`. `None` for any other
/// scheme.
pub open spec fn source_of(src: Seq<char>) -> Option<SourceView> {
    match first_separator(src, 0) {
        Some(at) => {
            let scheme = src.take(at);
            if scheme == "file"@ {
                Some(SourceView::File(src.skip(at + 3)))
            } else if scheme == "http"@ || scheme == "https"@ {
                Some(SourceView::Http(src))
            } else {
                None
            }
        },
        None => Some(SourceView::File(src)),
    }
}

/// Tells where a schedule comes from by the text that names its source.
pub fn parse_source(src: &str) -> (r: Result<Source, EpgError>)
    ensures
        match source_of(src@) {
            Some(source) => r.is_ok() && r.unwrap()@ == source,
            None => r.is_err() && r.unwrap_err() is UnknownSourceType,
        },
{
    let len = src.unicode_len();
    let mut at: usize = 0;
    while len >= 3 && at <= len - 3
        invariant
            len == src@.len(),
            at <= len,
            first_separator(src@, 0) == first_separator(src@, at as int),
        decreases len - at,
    {
        if src.get_char(at) == ':' && src.get_char(at + 1) == '/' && src.get_char(at + 2) == '/' {
            let scheme = src.substring_char(0, at);
            assert(scheme@ =~= src@.take(at as int));
            if crate::text_map::same_text(scheme, "file") {
                let path = src.substring_char(at + 3, len);
                assert(path@ =~= src@.skip(at + 3));
                return Ok(Source::File(path.to_owned()));
            } else if crate::text_map::same_text(scheme, "http") || crate::text_map::same_text(
                scheme,
                "https",
            ) {
                return Ok(Source::Http(src.to_owned()));
            } else {
                return Err(EpgError::UnknownSourceType);
            }
        }
        at += 1;
    }
    Ok(Source::File(src.to_owned()))
}

/// The document in `src`: what the gzip stream holds where `src` is one,
/// and `src` itself where it is not. `None` for a gzip stream that cannot be
/// unpacked.
pub open spec fn document_in(src: Seq<u8>) -> Option<Seq<u8>> {
    if gzip_magic(src) {
        inflated(src)
    } else {
        Some(src)
    }
}

impl Epg {
    /// Reads the document in `src`, packed with gzip or not, into the
    /// schedule. What the document holds up to its end, or up to the place
    /// where it is not well-formed, goes in; a gzip stream that cannot be
    /// unpacked leaves the schedule as it is.
    pub fn read(&mut self, src: &[u8], langs: &LangTable) -> (r: Result<(), EpgError>)
        ensures
            match document_in(src@) {
                Some(document) => final(self)@ == parse_events(
                    old(self)@,
                    leading_events(document_events(document)),
                    langs@,
                ).0 && r.is_ok() == parse_events(
                    old(self)@,
                    leading_events(document_events(document)),
                    langs@,
                ).1 && (r.is_err() ==> r == Err::<(), EpgError>(
                    EpgError::XmlReader(failure_of(document)),
                )),
                None => final(self)@ == old(self)@ && r.is_err() && r.unwrap_err() is Io,
            },
    {
        let read = if is_gzip(src) {
            match gunzip(src) {
                Ok(document) => read_xml_tv(self, document.as_slice(), langs),
                Err(e) => {
                    return Err(EpgError::Io(e));
                },
            }
        } else {
            read_xml_tv(self, src, langs)
        };
        match read {
            Ok(()) => Ok(()),
            Err(e) => Err(EpgError::XmlReader(e)),
        }
    }

    /// Writes the schedule as a document: what xml-rs's writer makes of the
    /// document's events. The one thing that keeps a schedule from being
    /// written is a time that cannot be written.
    pub fn write(&self, langs: &LangTable) -> (r: Result<Vec<u8>, EpgError>)
        ensures
            match document_of(self@, langs@) {
                Some(document) => r.is_ok() && r.unwrap()@ == rendered(document),
                None => r == Err::<Vec<u8>, EpgError>(
                    EpgError::XmlWriter(XmlWriterError::DateOutOfRange),
                ),
            },
    {
        match write_xml_tv(self, langs) {
            Ok(bytes) => Ok(bytes),
            Err(e) => Err(EpgError::XmlWriter(e)),
        }
    }
}

} // verus!
